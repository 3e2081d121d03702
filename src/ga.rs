//! The genetic operators: tournament selection over batches of the cache,
//! two-dimensional block crossover, and point mutation.
use crate::bits::State;
use crate::constants::{MAX_CROSSOVER_POINTS, MAX_CROSSOVER_SECTION_SIZE, MAX_MUTATION_POINTS, ONE};
use crate::grid::{integer_sqrt, is_sqrt, lemma_cell_index};
use crate::random::below;
use crate::space::{Entries, StateSpace, is_first_highest, keys_unique};
use rand::rngs::StdRng;
use vstd::arithmetic::div_mod::{
    lemma_div_is_ordered, lemma_fundamental_div_mod, lemma_fundamental_div_mod_converse,
};
use vstd::prelude::*;

verus! {

/// `ceil(frac * n / ONE)`.
pub open spec fn ceil_fraction(frac: nat, n: nat) -> nat {
    ((frac * n + ONE - 1) / (ONE as int)) as nat
}

/// The number of tournament winners for `p` entries.
pub open spec fn winner_count(p: nat, pct: nat) -> nat {
    ceil_fraction(pct, p)
}

/// The size of batch `b` when `p` entries are split into `k` near-equal
/// batches, the remainder going one each to the first batches.
pub open spec fn batch_size(p: nat, k: nat, b: nat) -> nat {
    p / k + if b < p % k { 1nat } else { 0nat }
}

/// Where batch `b` starts.
pub open spec fn batch_start(p: nat, k: nat, b: nat) -> nat {
    b * (p / k) + if b < p % k { b } else { p % k }
}

/// The bits of each state.
pub open spec fn views(v: Seq<State>) -> Seq<Seq<bool>> {
    Seq::new(v.len(), |i: int| v[i]@)
}

/// All the sequences have the same length.
pub open spec fn uniform(v: Seq<Seq<bool>>) -> bool {
    forall|i: int, j: int| 0 <= i < v.len() && 0 <= j < v.len() ==> v[i].len() == v[j].len()
}

/// The keys of a state space all have the same length.
pub open spec fn uniform_keys(s: Entries) -> bool {
    forall|i: int, j: int| 0 <= i < s.len() && 0 <= j < s.len() ==> s[i].0.len() == s[j].0.len()
}

/// `w` picks one entry of each batch of `p` entries split `k` ways, in batch
/// order; at a selection pressure of `ONE` or more, each pick is the first
/// entry of highest score in its batch.
pub open spec fn tournament_winners(pop: Entries, k: nat, pressure: nat, w: Seq<usize>) -> bool {
    &&& w.len() == k
    &&& forall|b: int|
        0 <= b < k ==> {
            let start = batch_start(pop.len(), k, b as nat) as int;
            let end = start + batch_size(pop.len(), k, b as nat);
            &&& start <= #[trigger] w[b] < end
            &&& pressure >= ONE ==> is_first_highest(pop.subrange(start, end), w[b] - start)
        }
    &&& forall|a: int, b: int| 0 <= a < b < k ==> w[a] < w[b]
}

/// `child` takes each cell from `parent` or `partner`, and at least one from `partner`.
pub open spec fn crossed_with(child: Seq<bool>, parent: Seq<bool>, partner: Seq<bool>) -> bool {
    &&& child.len() == parent.len()
    &&& forall|t: int| 0 <= t < child.len() ==> child[t] == parent[t] || child[t] == partner[t]
    &&& exists|t: int| 0 <= t < child.len() && child[t] == partner[t]
}

/// `child` crossed with some other winner than `w[i]`.
pub open spec fn crossed_with_another(child: Seq<bool>, w: Seq<Seq<bool>>, i: int) -> bool {
    exists|j: int| 0 <= j < w.len() && j != i && crossed_with(child, w[i], w[j])
}

/// The children of crossover at `rate` over the winners `w`: each is its
/// parent or a cross of it with another winner; never crossed at rate 0,
/// always at rate `ONE` or more.
pub open spec fn crossover_children(out: Seq<Seq<bool>>, w: Seq<Seq<bool>>, rate: nat) -> bool {
    &&& out.len() == w.len()
    &&& forall|i: int|
        0 <= i < out.len() ==> {
            &&& out[i] == w[i] || crossed_with_another(out[i], w, i)
            &&& rate == 0 ==> out[i] == w[i]
            &&& rate >= ONE ==> crossed_with_another(out[i], w, i)
        }
}

proof fn lemma_batch_next(p: nat, k: nat, b: nat)
    requires
        k > 0,
    ensures
        batch_start(p, k, b + 1) == batch_start(p, k, b) + batch_size(p, k, b),
{
    let d = p / k;
    assert((b + 1) * d == b * d + d) by (nonlinear_arith);
}

proof fn lemma_batch_bounds(p: nat, k: nat, b: nat)
    requires
        0 < k <= p,
        b <= k,
    ensures
        batch_start(p, k, b) <= p,
        batch_start(p, k, k) == p,
        b < k ==> batch_size(p, k, b) >= 1,
{
    lemma_fundamental_div_mod(p as int, k as int);
    assert(b * (p / k) <= k * (p / k)) by (nonlinear_arith)
        requires
            b <= k,
            p / k >= 0,
    ;
    assert(k * (p / k) == p - p % k);
    assert(p / k >= 1) by {
        if p / k == 0 {
            assert(k * (p / k) == 0) by (nonlinear_arith)
                requires
                    p / k == 0,
            ;
        }
    }
}

/// Every pick of a tournament is a position of the population.
proof fn lemma_winners_in_range(pop: Entries, k: nat, pressure: nat, w: Seq<usize>)
    requires
        tournament_winners(pop, k, pressure, w),
        0 < k <= pop.len(),
    ensures
        forall|t: int| 0 <= t < w.len() ==> #[trigger] w[t] < pop.len(),
{
    assert forall|t: int| 0 <= t < w.len() implies #[trigger] w[t] < pop.len() by {
        lemma_batch_next(pop.len(), k, t as nat);
        lemma_batch_bounds(pop.len(), k, (t + 1) as nat);
    }
}

/// Tournament winners are distinct entries of the population: in a cache with
/// unique keys, no two winners share a key.
pub proof fn lemma_tournament_winners_distinct(pop: Entries, k: nat, pressure: nat, w: Seq<usize>)
    requires
        keys_unique(pop),
        tournament_winners(pop, k, pressure, w),
        0 < k <= pop.len(),
    ensures
        w.len() == k,
        forall|t: int| 0 <= t < w.len() ==> #[trigger] w[t] < pop.len(),
        forall|a: int, b: int|
            0 <= a < b < w.len() ==> pop[#[trigger] w[a] as int].0 != pop[#[trigger] w[b] as int].0,
{
    lemma_winners_in_range(pop, k, pressure, w);
    assert forall|a: int, b: int| 0 <= a < b < w.len() implies pop[#[trigger] w[a] as int].0
        != pop[#[trigger] w[b] as int].0 by {
        assert(w[a] < w[b]);
    }
}

/// Crossover at rate 0 returns every winner unchanged.
pub proof fn lemma_crossover_rate_zero(out: Seq<Seq<bool>>, w: Seq<Seq<bool>>)
    requires
        crossover_children(out, w, 0),
    ensures
        out == w,
{
    assert(out =~= w);
}

/// Crossover at full rate between two winners that differ at every cell
/// changes both: each child takes at least one cell from the other parent.
pub proof fn lemma_crossover_full_rate_changes(out: Seq<Seq<bool>>, w: Seq<Seq<bool>>, rate: nat)
    requires
        rate >= ONE,
        crossover_children(out, w, rate),
        w.len() == 2,
        w[0].len() == w[1].len(),
        forall|t: int| 0 <= t < w[0].len() ==> w[0][t] != w[1][t],
    ensures
        out[0] != w[0],
        out[1] != w[1],
{
    assert forall|i: int| 0 <= i < 2 implies out[i] != w[i] by {
        let j = choose|j: int| 0 <= j < w.len() && j != i && crossed_with(out[i], w[i], w[j]);
        let t = choose|t: int| 0 <= t < out[i].len() && out[i][t] == w[j][t];
        assert(out[i][t] != w[i][t]);
    }
}

/// `ceil(frac * n / ONE)` for a fraction of at most one.
fn ceil_fraction_of(frac: u64, n: usize) -> (r: usize)
    requires
        frac <= ONE,
    ensures
        r == ceil_fraction(frac as nat, n as nat),
        r <= n,
        frac > 0 && n > 0 ==> r >= 1,
{
    proof {
        assert(frac * n <= ONE * 0xffff_ffff_ffff_ffff) by (nonlinear_arith)
            requires
                frac <= ONE,
                n <= 0xffff_ffff_ffff_ffffu64,
        ;
    }
    let x: u128 = frac as u128 * n as u128 + (ONE as u128 - 1);
    let q = x / ONE as u128;
    proof {
        lemma_fundamental_div_mod(x as int, ONE as int);
        let xi = x as int;
        let m = xi % (ONE as int);
        assert(q <= n) by (nonlinear_arith)
            requires
                xi == ONE * q + m,
                0 <= m,
                xi == frac * n + (ONE - 1),
                frac <= ONE,
        ;
        if frac > 0 && n > 0 {
            assert(q >= 1) by (nonlinear_arith)
                requires
                    xi == ONE * q + m,
                    m < ONE,
                    xi == frac * n + (ONE - 1),
                    frac >= 1,
                    n >= 1,
            ;
        }
    }
    q as usize
}

/// The position in `batch`, a run of consecutive entry positions, of its first
/// entry of highest score.
fn fittest(population: &StateSpace, batch: &Vec<usize>) -> (r: usize)
    requires
        population.wf(),
        batch@.len() > 0,
        forall|t: int| 0 <= t < batch@.len() ==> #[trigger] batch@[t] == batch@[0] + t,
        batch@[0] + batch@.len() <= population@.len(),
    ensures
        is_first_highest(
            population@.subrange(batch@[0] as int, batch@[0] + batch@.len()),
            r as int,
        ),
{
    let ghost sub = population@.subrange(batch@[0] as int, batch@[0] + batch@.len());
    let mut fittest_index: usize = 0;
    let mut max_fitness = population.score(batch[0]).get_value();
    let mut j: usize = 1;
    while j < batch.len()
        invariant
            population.wf(),
            batch@.len() > 0,
            forall|t: int| 0 <= t < batch@.len() ==> #[trigger] batch@[t] == batch@[0] + t,
            batch@[0] + batch@.len() <= population@.len(),
            sub == population@.subrange(batch@[0] as int, batch@[0] + batch@.len()),
            1 <= j <= batch@.len(),
            fittest_index < j,
            max_fitness == sub[fittest_index as int].1.value(),
            forall|t: int| 0 <= t < j ==> sub[fittest_index as int].1.value() >= sub[t].1.value(),
            forall|t: int| 0 <= t < fittest_index ==> sub[t].1.value() < sub[fittest_index as int].1.value(),
        decreases batch@.len() - j,
    {
        let fitness = population.score(batch[j]).get_value();
        if fitness > max_fitness {
            max_fitness = fitness;
            fittest_index = j;
        }
        j = j + 1;
    }
    fittest_index
}

/// Cell `t` of a row-major grid `side` cells wide lies in the `w` by `h`
/// rectangle whose top-left cell is `(x, y)`.
pub open spec fn in_rect(t: int, side: int, x: int, y: int, w: int, h: int) -> bool {
    side > 0 && y <= t / side < y + h && x <= t % side < x + w
}

/// `child` with the `size` by `size` block at `(x, y)` taken from `partner`.
pub open spec fn with_block(
    child: Seq<bool>,
    partner: Seq<bool>,
    side: int,
    x: int,
    y: int,
    size: int,
) -> Seq<bool> {
    Seq::new(
        child.len(),
        |t: int|
            if in_rect(t, side, x, y, size, size) {
                partner[t]
            } else {
                child[t]
            },
    )
}

/// Copies the `size` by `size` block at `(x, y)` of a `side` by `side` grid
/// from `partner` into `child`.
pub fn copy_block(child: &mut State, partner: &State, side: usize, x: usize, y: usize, size: usize)
    requires
        old(child)@.len() == partner@.len(),
        side * side <= partner@.len(),
        x + size <= side,
        y + size <= side,
    ensures
        final(child)@ == with_block(old(child)@, partner@, side as int, x as int, y as int, size as int),
{
    let ghost orig = child@;
    let n = partner.bit_len();
    let ghost len = orig.len();
    let mut r = y;
    while r < y + size
        invariant
            orig == old(child)@,
            len == orig.len(),
            n == len,
            child@.len() == len,
            partner@.len() == len,
            side * side <= len,
            x + size <= side,
            y + size <= side,
            y <= r <= y + size,
            child@ == Seq::new(
                len,
                |t: int|
                    if in_rect(t, side as int, x as int, y as int, size as int, r - y) {
                        partner@[t]
                    } else {
                        orig[t]
                    },
            ),
        decreases y + size - r,
    {
        let mut c = x;
        while c < x + size
            invariant
                orig == old(child)@,
                len == orig.len(),
                n == len,
                child@.len() == len,
                partner@.len() == len,
                side * side <= len,
                x + size <= side,
                y + size <= side,
                y <= r < y + size,
                x <= c <= x + size,
                child@ == Seq::new(
                    len,
                    |t: int|
                        if in_rect(t, side as int, x as int, y as int, size as int, r - y)
                            || in_rect(t, side as int, x as int, r as int, c - x, 1) {
                            partner@[t]
                        } else {
                            orig[t]
                        },
                ),
            decreases x + size - c,
        {
            proof {
                lemma_cell_index(c as int, r as int, side as int, side as int);
            }
            let index = r * side + c;
            let ghost before = child@;
            let bit = partner.bit_at(index);
            child.set_bit(index, bit);
            proof {
                let si = side as int;
                lemma_fundamental_div_mod_converse(index as int, si, r as int, c as int);
                assert forall|t: int| 0 <= t < len implies #[trigger] child@[t] == (if in_rect(
                    t,
                    si,
                    x as int,
                    y as int,
                    size as int,
                    r - y,
                ) || in_rect(t, si, x as int, r as int, c + 1 - x, 1) {
                    partner@[t]
                } else {
                    orig[t]
                }) by {
                    if t != index {
                        lemma_fundamental_div_mod(t, si);
                        if t / si == r && t % si == c {
                            assert(si * (r as int) == (r as int) * si) by (nonlinear_arith);
                            assert(t == r * si + c);
                        }
                    }
                }
                assert(child@ =~= Seq::new(
                    len,
                    |t: int|
                        if in_rect(t, si, x as int, y as int, size as int, r - y) || in_rect(
                            t,
                            si,
                            x as int,
                            r as int,
                            c + 1 - x,
                            1,
                        ) {
                            partner@[t]
                        } else {
                            orig[t]
                        },
                ));
            }
            c = c + 1;
        }
        r = r + 1;
        assert(child@ =~= Seq::new(
            len,
            |t: int|
                if in_rect(t, side as int, x as int, y as int, size as int, r - y) {
                    partner@[t]
                } else {
                    orig[t]
                },
        ));
    }
    assert(child@ =~= with_block(orig, partner@, side as int, x as int, y as int, size as int));
}

/// A child of `parent` that takes square blocks of cells from `partner`: a
/// number of blocks in proportion to the cell count, each anchored at a random
/// cell of the `side` by `side` grid, with a random side bounded by a fraction
/// of the grid's side and by the distance to the grid's far edge.
fn cross_one(parent: &State, partner: &State, side: usize, rng: &mut StdRng) -> (r: State)
    requires
        parent@.len() == partner@.len(),
        1 <= side,
        side * side <= parent@.len(),
    ensures
        crossed_with(r@, parent@, partner@),
{
    let len = parent.bit_len();
    let mut child = parent.copy();
    let percentage = 1 + below(rng, MAX_CROSSOVER_POINTS as usize) as u64;
    proof {
        assert(len >= 1) by (nonlinear_arith)
            requires
                side >= 1,
                side * side <= len,
        ;
    }
    let num_points = ceil_fraction_of(percentage, len);
    let size_percentage = below(rng, MAX_CROSSOVER_SECTION_SIZE as usize) as u64;
    let section_side = ceil_fraction_of(size_percentage, side);
    let ghost mut witness: int = 0;
    let mut point: usize = 0;
    while point < num_points
        invariant
            parent@.len() == len,
            partner@.len() == len,
            1 <= side,
            side * side <= len,
            child@.len() == len,
            forall|t: int| 0 <= t < len ==> child@[t] == parent@[t] || child@[t] == partner@[t],
            point > 0 ==> 0 <= witness < len && child@[witness] == partner@[witness],
            point <= num_points,
        decreases num_points - point,
    {
        let point_x = below(rng, side);
        let point_y = below(rng, side);
        let far = side - if point_x > point_y {
            point_x
        } else {
            point_y
        };
        let mut bound = if section_side < far {
            section_side
        } else {
            far
        };
        if bound == 0 {
            bound = 1;
        }
        let size = 1 + below(rng, bound);
        let ghost before = child@;
        copy_block(&mut child, partner, side, point_x, point_y, size);
        proof {
            lemma_cell_index(point_x as int, point_y as int, side as int, side as int);
            let anchor = point_y * side + point_x;
            lemma_fundamental_div_mod_converse(anchor as int, side as int, point_y as int, point_x as int);
            if point > 0 {
                if !in_rect(witness, side as int, point_x as int, point_y as int, size as int, size as int) {
                    assert(child@[witness] == before[witness]);
                }
            }
            witness = anchor as int;
            assert(child@[witness] == partner@[witness]);
        }
        point = point + 1;
    }
    child
}

/// How often position `t` occurs in `points`.
pub open spec fn occurrences(points: Seq<usize>, t: int) -> nat
    decreases points.len(),
{
    if points.len() == 0 {
        0
    } else {
        occurrences(points.drop_last(), t) + if points.last() == t { 1nat } else { 0nat }
    }
}

/// `s` with its bit at each position in `points` flipped, once per
/// occurrence: a position drawn twice is flipped back.
pub open spec fn flipped(s: Seq<bool>, points: Seq<usize>) -> Seq<bool> {
    Seq::new(s.len(), |t: int| if occurrences(points, t) % 2 == 1 { !s[t] } else { s[t] })
}

/// Flips the bit at each position of `points` in turn.
pub fn flip_bits(state: &mut State, points: &Vec<usize>)
    requires
        forall|k: int| 0 <= k < points@.len() ==> #[trigger] points@[k] < old(state)@.len(),
    ensures
        final(state)@ == flipped(old(state)@, points@),
{
    let ghost orig = state@;
    assert(state@ =~= flipped(orig, points@.take(0)));
    let mut i: usize = 0;
    while i < points.len()
        invariant
            orig == old(state)@,
            forall|k: int| 0 <= k < points@.len() ==> #[trigger] points@[k] < orig.len(),
            i <= points@.len(),
            state@ == flipped(orig, points@.take(i as int)),
        decreases points@.len() - i,
    {
        let index = points[i];
        let bit = state.bit_at(index);
        state.set_bit(index, !bit);
        proof {
            let next = points@.take(i + 1);
            assert(next.drop_last() =~= points@.take(i as int));
            assert(state@ =~= flipped(orig, next));
        }
        i = i + 1;
    }
    assert(points@.take(points@.len() as int) =~= points@);
}

/// `after` is `before` with at most `ceil(MAX_MUTATION_POINTS * len / ONE)`
/// point flips.
pub open spec fn mutated_from(after: Seq<bool>, before: Seq<bool>) -> bool {
    exists|points: Seq<usize>|
        points.len() <= ceil_fraction(MAX_MUTATION_POINTS as nat, before.len()) && after
            == #[trigger] flipped(before, points)
}

/// A state is its own flip by no points.
proof fn lemma_flipped_none(s: Seq<bool>)
    ensures
        flipped(s, Seq::empty()) == s,
        mutated_from(s, s),
{
    assert(flipped(s, Seq::empty()) =~= s);
    assert(s == flipped(s, Seq::<usize>::empty()));
}

/// The genetic operators and their rates, over `ONE`.
pub struct GA {
    pub tournament_winners_percentage: u64,
    pub selection_pressure: u64,
    pub mutation_rate: u64,
    pub crossover_rate: u64,
}

impl GA {
    pub fn new(
        tournament_winners_percentage: u64,
        selection_pressure: u64,
        mutation_rate: u64,
        crossover_rate: u64,
    ) -> (r: GA)
        ensures
            r.tournament_winners_percentage == tournament_winners_percentage,
            r.selection_pressure == selection_pressure,
            r.mutation_rate == mutation_rate,
            r.crossover_rate == crossover_rate,
    {
        GA { tournament_winners_percentage, selection_pressure, mutation_rate, crossover_rate }
    }

    /// Splits the population into `winner_count` batches and picks one entry
    /// of each: with probability `selection_pressure` its first entry of
    /// highest score, otherwise one drawn uniformly. Fails when no batch can
    /// be formed or there would be more batches than entries.
    pub fn tournament_selection(&self, population: &StateSpace, rng: &mut StdRng) -> (r: Option<
        Vec<usize>,
    >)
        requires
            population.wf(),
        ensures
            ({
                let p = population@.len();
                let k = winner_count(p, self.tournament_winners_percentage as nat);
                &&& r is None <==> k == 0 || k > p
                &&& r matches Some(w) ==> tournament_winners(
                    population@,
                    k,
                    self.selection_pressure as nat,
                    w@,
                )
            }),
    {
        let population_size = population.len();
        let ghost p = population_size as nat;
        let pct = self.tournament_winners_percentage;
        proof {
            assert(pct * p <= 0xffff_ffff_ffff_ffff * 0xffff_ffff_ffff_ffff) by (nonlinear_arith)
                requires
                    pct <= 0xffff_ffff_ffff_ffffu64,
                    p <= 0xffff_ffff_ffff_ffffu64,
            ;
        }
        let count: u128 = (pct as u128 * population_size as u128 + (ONE as u128 - 1)) / ONE as u128;
        if count == 0 || count > population_size as u128 {
            return None;
        }
        let number_of_winners = count as usize;
        let ghost k = number_of_winners as nat;
        let queue = match self.get_queue(number_of_winners, population_size) {
            Some(q) => q,
            None => {
                return None;
            },
        };
        let mut winners: Vec<usize> = Vec::new();
        let mut i: usize = 0;
        while i < number_of_winners
            invariant
                population.wf(),
                p == population@.len(),
                p == population_size,
                k == number_of_winners,
                0 < k <= p,
                i <= k,
                queue@.len() == k,
                forall|b: int|
                    0 <= b < k ==> #[trigger] queue@[b]@ == Seq::new(
                        batch_size(p, k, b as nat),
                        |t: int| (batch_start(p, k, b as nat) + t) as usize,
                    ),
                winners@.len() == i,
                forall|b: int|
                    0 <= b < i ==> {
                        let start = batch_start(p, k, b as nat) as int;
                        let end = start + batch_size(p, k, b as nat);
                        &&& start <= #[trigger] winners@[b] < end
                        &&& self.selection_pressure >= ONE ==> is_first_highest(
                            population@.subrange(start, end),
                            winners@[b] - start,
                        )
                    },
                forall|a: int, b: int| 0 <= a < b < i ==> winners@[a] < winners@[b],
                forall|b: int| 0 <= b < i ==> winners@[b] < batch_start(p, k, i as nat),
            decreases k - i,
        {
            proof {
                lemma_batch_bounds(p, k, i as nat);
                lemma_batch_bounds(p, k, (i + 1) as nat);
                lemma_batch_next(p, k, i as nat);
            }
            let batch = &queue[i];
            let ghost start = batch_start(p, k, i as nat) as int;
            let ghost end = start + batch_size(p, k, i as nat);
            assert(batch@ == queue@[i as int]@);
            assert(batch_size(p, k, i as nat) >= 1);
            assert(end <= p);
            assert(batch@[0] == start);
            assert forall|t: int| 0 <= t < batch@.len() implies #[trigger] batch@[t] == batch@[0] + t by {
                assert(start + t < end);
            }
            let draw = below(rng, ONE as usize);
            let pos = if (draw as u64) < self.selection_pressure {
                fittest(population, batch)
            } else {
                below(rng, batch.len())
            };
            winners.push(batch[pos]);
            i = i + 1;
        }
        Some(winners)
    }

    /// New candidate states from the population: tournament winners, crossed
    /// over, then mutated. Fails when selection yields fewer than two winners
    /// or more batches than entries, or the states are empty.
    pub fn evolve(&self, population: &StateSpace, rng: &mut StdRng) -> (r: Option<Vec<State>>)
        requires
            population.wf(),
            uniform_keys(population@),
        ensures
            ({
                let p = population@.len();
                let k = winner_count(p, self.tournament_winners_percentage as nat);
                &&& r is None <==> (k < 2 || k > p || population@[0].0.len() == 0)
                &&& r matches Some(v) ==> {
                    &&& v@.len() == k
                    &&& forall|i: int| 0 <= i < k ==> #[trigger] v@[i]@.len() == population@[0].0.len()
                    &&& self.crossover_rate == 0 && self.mutation_rate == 0 ==> exists|w: Seq<usize>|
                        #[trigger] tournament_winners(population@, k, self.selection_pressure as nat, w)
                            && forall|b: int|
                            0 <= b < k ==> #[trigger] v@[b]@ == population@[w[b] as int].0
                }
            }),
    {
        let ghost k = winner_count(population@.len(), self.tournament_winners_percentage as nat);
        let positions = match self.tournament_selection(population, rng) {
            Some(w) => w,
            None => {
                return None;
            },
        };
        proof {
            lemma_winners_in_range(population@, k, self.selection_pressure as nat, positions@);
        }
        let mut winners: Vec<State> = Vec::new();
        let mut b: usize = 0;
        while b < positions.len()
            invariant
                population.wf(),
                uniform_keys(population@),
                forall|t: int| 0 <= t < positions@.len() ==> #[trigger] positions@[t] < population@.len(),
                b <= positions@.len(),
                winners@.len() == b,
                forall|t: int|
                    0 <= t < b ==> #[trigger] winners@[t]@ == population@[positions@[t] as int].0,
            decreases positions@.len() - b,
        {
            let state = population.state(positions[b]).copy();
            winners.push(state);
            b = b + 1;
        }
        let ghost w = views(winners@);
        assert(uniform(w));
        assert(w.len() == k);
        proof {
            if k >= 2 {
                assert(w[0] == population@[positions@[0] as int].0);
            }
        }
        let mut new_states = match self.crossover(&winners, rng) {
            Some(states) => states,
            None => {
                return None;
            },
        };
        let ghost crossed = views(new_states@);
        assert forall|i: int| 0 <= i < crossed.len() implies #[trigger] crossed[i].len() == w[0].len() by {
            if crossed[i] != w[i] {
                let j = choose|j: int| 0 <= j < w.len() && j != i && crossed_with(crossed[i], w[i], w[j]);
            }
        }
        assert(uniform(crossed));
        match self.mutate(&mut new_states, rng) {
            Some(_) => {},
            None => {
                return None;
            },
        }
        proof {
            assert(w[0].len() == population@[0].0.len());
            assert forall|i: int| 0 <= i < k implies #[trigger] new_states@[i]@.len()
                == population@[0].0.len() by {
                assert(crossed[i].len() == w[0].len());
            }
            if self.crossover_rate == 0 && self.mutation_rate == 0 {
                assert forall|b: int| 0 <= b < k implies #[trigger] new_states@[b]@
                    == population@[positions@[b] as int].0 by {
                    assert(views(new_states@)[b] == crossed[b]);
                    assert(crossed[b] == w[b]);
                }
                assert(tournament_winners(
                    population@,
                    k,
                    self.selection_pressure as nat,
                    positions@,
                ));
            }
        }
        Some(new_states)
    }

    /// Each winner is kept with probability `1 - crossover_rate`, and otherwise
    /// replaced by a cross of it with another winner drawn uniformly. Fails
    /// with fewer than two winners or empty states.
    pub fn crossover(&self, winners: &Vec<State>, rng: &mut StdRng) -> (r: Option<Vec<State>>)
        requires
            uniform(views(winners@)),
        ensures
            r is None <==> winners@.len() <= 1 || winners@[0]@.len() == 0,
            r matches Some(out) ==> crossover_children(
                views(out@),
                views(winners@),
                self.crossover_rate as nat,
            ),
    {
        if winners.len() <= 1 {
            return None;
        }
        let num_states = winners.len();
        let grid_size = winners[0].bit_len();
        let root = integer_sqrt(grid_size as u128);
        proof {
            assert(root <= grid_size) by (nonlinear_arith)
                requires
                    root * root <= grid_size,
            ;
        }
        let side = root as usize;
        proof {
            assert(is_sqrt(grid_size as nat, side as nat));
            if grid_size == 0 {
                assert(side == 0) by (nonlinear_arith)
                    requires
                        side * side <= 0,
                ;
            }
        }
        if side == 0 {
            assert(grid_size == 0) by (nonlinear_arith)
                requires
                    is_sqrt(grid_size as nat, 0),
            ;
            return None;
        }
        let ghost w = views(winners@);
        let mut new_states: Vec<State> = Vec::new();
        let mut i: usize = 0;
        while i < num_states
            invariant
                w == views(winners@),
                uniform(w),
                num_states == winners@.len(),
                num_states >= 2,
                grid_size == winners@[0]@.len(),
                1 <= side,
                side * side <= grid_size,
                i <= num_states,
                new_states@.len() == i,
                forall|c: int|
                    0 <= c < i ==> {
                        &&& #[trigger] new_states@[c]@ == w[c] || crossed_with_another(
                            new_states@[c]@,
                            w,
                            c,
                        )
                        &&& self.crossover_rate == 0 ==> new_states@[c]@ == w[c]
                        &&& self.crossover_rate >= ONE ==> crossed_with_another(
                            new_states@[c]@,
                            w,
                            c,
                        )
                    },
            decreases num_states - i,
        {
            let draw = below(rng, ONE as usize);
            let state = if (draw as u64) < self.crossover_rate {
                let pick = below(rng, num_states - 1);
                let j = if pick < i {
                    pick
                } else {
                    pick + 1
                };
                assert(w[i as int].len() == w[0].len() && w[j as int].len() == w[0].len());
                let child = cross_one(&winners[i], &winners[j], side, rng);
                assert(crossed_with(child@, w[i as int], w[j as int]));
                child
            } else {
                winners[i].copy()
            };
            new_states.push(state);
            i = i + 1;
        }
        assert(views(new_states@).len() == w.len());
        Some(new_states)
    }

    /// Each state is mutated with probability `mutation_rate`: a random number
    /// of bits, up to a fraction of its length, each drawn uniformly, are
    /// flipped (a bit drawn twice flips back). Fails on no states or empty ones.
    pub fn mutate(&self, new_states: &mut Vec<State>, rng: &mut StdRng) -> (r: Option<()>)
        requires
            uniform(views(old(new_states)@)),
        ensures
            r is None <==> old(new_states)@.len() == 0 || old(new_states)@[0]@.len() == 0,
            r is None ==> views(final(new_states)@) == views(old(new_states)@),
            final(new_states)@.len() == old(new_states)@.len(),
            forall|i: int|
                0 <= i < old(new_states)@.len() ==> #[trigger] final(new_states)@[i]@.len()
                    == old(new_states)@[i]@.len(),
            self.mutation_rate == 0 ==> views(final(new_states)@) == views(old(new_states)@),
            forall|i: int|
                0 <= i < old(new_states)@.len() ==> #[trigger] mutated_from(
                    final(new_states)@[i]@,
                    old(new_states)@[i]@,
                ),
    {
        proof {
            assert forall|i: int| 0 <= i < old(new_states)@.len() implies #[trigger] mutated_from(
                old(new_states)@[i]@,
                old(new_states)@[i]@,
            ) by {
                lemma_flipped_none(old(new_states)@[i]@);
            }
        }
        if new_states.len() == 0 {
            return None;
        }
        let state_size = new_states[0].bit_len();
        if state_size == 0 {
            return None;
        }
        let ghost before = views(new_states@);
        let num_states = new_states.len();
        let mut i: usize = 0;
        while i < num_states
            invariant
                before == views(old(new_states)@),
                uniform(before),
                num_states == before.len(),
                state_size == before[0].len(),
                state_size > 0,
                new_states@.len() == num_states,
                i <= num_states,
                forall|c: int| 0 <= c < num_states ==> #[trigger] new_states@[c]@.len() == before[c].len(),
                forall|c: int| i <= c < num_states ==> #[trigger] new_states@[c]@ == before[c],
                self.mutation_rate == 0 ==> forall|c: int|
                    0 <= c < num_states ==> #[trigger] new_states@[c]@ == before[c],
                forall|c: int|
                    0 <= c < num_states ==> #[trigger] mutated_from(new_states@[c]@, before[c]),
            decreases num_states - i,
        {
            let draw = below(rng, ONE as usize);
            if (draw as u64) < self.mutation_rate {
                let percentage = below(rng, MAX_MUTATION_POINTS as usize) as u64;
                let num_mutation_points = ceil_fraction_of(percentage, state_size);
                let mut state = new_states[i].copy();
                assert(before[i as int].len() == before[0].len());
                assert(new_states@[i as int]@.len() == before[i as int].len());
                assert(state@ == before[i as int]);
                let mut points: Vec<usize> = Vec::new();
                let mut m: usize = 0;
                while m < num_mutation_points
                    invariant
                        state_size > 0,
                        m <= num_mutation_points,
                        points@.len() == m,
                        forall|k: int| 0 <= k < points@.len() ==> #[trigger] points@[k] < state_size,
                    decreases num_mutation_points - m,
                {
                    let index = below(rng, state_size);
                    points.push(index);
                    m = m + 1;
                }
                flip_bits(&mut state, &points);
                proof {
                    assert(percentage * state_size <= MAX_MUTATION_POINTS * state_size)
                        by (nonlinear_arith)
                        requires
                            percentage <= MAX_MUTATION_POINTS,
                    ;
                    lemma_div_is_ordered(
                        (percentage * state_size + ONE - 1) as int,
                        (MAX_MUTATION_POINTS * state_size + ONE - 1) as int,
                        ONE as int,
                    );
                    assert(state@ == flipped(before[i as int], points@));
                    assert(mutated_from(state@, before[i as int]));
                }
                let ghost old_states = new_states@;
                new_states.set(i, state);
                proof {
                    assert forall|c: int| 0 <= c < num_states implies #[trigger] mutated_from(
                        new_states@[c]@,
                        before[c],
                    ) by {
                        if c != i {
                            assert(new_states@[c] == old_states[c]);
                        }
                    }
                }
            }
            i = i + 1;
        }
        assert(self.mutation_rate == 0 ==> views(new_states@) =~= before);
        assert forall|c: int| 0 <= c < num_states implies #[trigger] mutated_from(
            new_states@[c]@,
            old(new_states)@[c]@,
        ) by {
            assert(before[c] == old(new_states)@[c]@);
        }
        Some(())
    }

    /// Splits the positions `0..population_size` into `number_of_winners`
    /// consecutive batches of near-equal size.
    fn get_queue(&self, number_of_winners: usize, population_size: usize) -> (r: Option<
        Vec<Vec<usize>>,
    >)
        ensures
            r is None <==> number_of_winners == 0 || number_of_winners > population_size,
            r matches Some(q) ==> {
                &&& q@.len() == number_of_winners
                &&& forall|b: int|
                    0 <= b < number_of_winners ==> q@[b]@ == Seq::new(
                        batch_size(population_size as nat, number_of_winners as nat, b as nat),
                        |t: int|
                            (batch_start(
                                population_size as nat,
                                number_of_winners as nat,
                                b as nat,
                            ) + t) as usize,
                    )
            },
    {
        if number_of_winners == 0 || number_of_winners > population_size {
            return None;
        }
        let ghost p = population_size as nat;
        let ghost k = number_of_winners as nat;
        let base_size = population_size / number_of_winners;
        let remainder = population_size % number_of_winners;
        let mut queue: Vec<Vec<usize>> = Vec::new();
        let mut current_index: usize = 0;
        let mut i: usize = 0;
        while i < number_of_winners
            invariant
                p == population_size,
                k == number_of_winners,
                0 < k <= p,
                base_size == p / k,
                remainder == p % k,
                i <= k,
                current_index == batch_start(p, k, i as nat),
                queue@.len() == i,
                forall|b: int|
                    0 <= b < i ==> queue@[b]@ == Seq::new(
                        batch_size(p, k, b as nat),
                        |t: int| (batch_start(p, k, b as nat) + t) as usize,
                    ),
            decreases k - i,
        {
            proof {
                lemma_batch_next(p, k, i as nat);
                lemma_batch_bounds(p, k, (i + 1) as nat);
            }
            let mut current_batch_size = base_size;
            if i < remainder {
                current_batch_size = current_batch_size + 1;
            }
            let end_index = current_index + current_batch_size;
            let mut batch: Vec<usize> = Vec::new();
            let mut j = current_index;
            while j < end_index
                invariant
                    current_index <= j <= end_index,
                    batch@ == Seq::new(
                        (j - current_index) as nat,
                        |t: int| (current_index + t) as usize,
                    ),
                decreases end_index - j,
            {
                batch.push(j);
                j = j + 1;
                assert(batch@ =~= Seq::new(
                    (j - current_index) as nat,
                    |t: int| (current_index + t) as usize,
                ));
            }
            queue.push(batch);
            current_index = end_index;
            i = i + 1;
        }
        Some(queue)
    }
}

} // verus!
