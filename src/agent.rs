//! The search agent: owns the state space and the genetic operators, explores
//! or exploits, scores pending entries by simulation, prunes the cache and
//! adapts its exploration probability.
use crate::bits::State;
use crate::constants::{
    CROSSOVER_RATE, DECREASE_FACTOR, INCREASE_FACTOR, MAX_EPSILON, MAX_GRID_CELLS,
    MAX_POPULATION_AGE, MAX_POPULATION_REPEATS, MAX_STATE_SPACE_SIZE, MIN_EPSILON, MUTATION_RATE,
    ONE, SELECTION_PRESSURE, TOURNAMENT_WINNERS_PERCENTAGE,
};
use crate::fitness::{fitness, fitness_value};
use crate::ga::{GA, views, winner_count};
use crate::grid::{alive_count, get_side_cells, side_cells, simulate, simulation, std_dev_of};
use crate::random::below;
use crate::space::{Entries, Score, StateSpace, average_score, has_key, is_first_highest, score_sum, with_entry};
use rand::rngs::StdRng;
use vstd::arithmetic::power2::{lemma2_to64, lemma_pow2_strictly_increases, lemma_pow2_unfold, pow2};
use vstd::arithmetic::div_mod::lemma_div_is_ordered;
use vstd::arithmetic::div_mod::lemma_div_multiples_vanish;
use vstd::prelude::*;

verus! {

/// The score a seed earns on a `cols` by `rows` grid, judged against `num_cells` cells.
pub open spec fn state_score(seed: Seq<bool>, cols: nat, rows: nat, num_cells: nat) -> nat {
    let run = simulation(
        seed,
        cols,
        rows,
        MAX_POPULATION_AGE as nat,
        MAX_POPULATION_REPEATS as nat,
    );
    fitness_value(
        alive_count(seed.take((cols * rows) as int)),
        alive_count(run.cells),
        run.age,
        std_dev_of(run.age, run.sum, run.sq_sum),
        num_cells,
        MAX_POPULATION_AGE as nat,
    )
}

/// The entries with every pending score replaced by the entry's score.
pub open spec fn evaluated(s: Entries, cols: nat, rows: nat, num_cells: nat) -> Entries {
    Seq::new(
        s.len(),
        |i: int|
            (
                s[i].0,
                if s[i].1 is Unscored {
                    Score::Scored(state_score(s[i].0, cols, rows, num_cells) as u64)
                } else {
                    s[i].1
                },
            ),
    )
}

/// `after` is `before` cut down to at most `cap` entries by dropping only
/// entries that score no higher than every entry kept.
pub open spec fn pruned(before: Entries, after: Entries, cap: nat) -> bool {
    &&& after.len() == if before.len() > cap { cap } else { before.len() }
    &&& forall|i: int| 0 <= i < after.len() ==> before.contains(#[trigger] after[i])
    &&& forall|e: (Seq<bool>, Score)|
        #[trigger] before.contains(e) && !after.contains(e) ==> forall|j: int|
            0 <= j < after.len() ==> #[trigger] after[j].1.value() >= e.1.value()
}

/// After pruning the cache holds at most `cap` entries, and no entry removed
/// scores higher than any entry kept.
pub proof fn lemma_pruned_keeps_the_best(before: Entries, after: Entries, cap: nat)
    requires
        pruned(before, after, cap),
    ensures
        after.len() <= cap,
        forall|e: (Seq<bool>, Score), j: int|
            #![trigger before.contains(e), after[j]]
            before.contains(e) && !after.contains(e) && 0 <= j < after.len() ==> e.1.value()
                <= after[j].1.value(),
{
    assert forall|e: (Seq<bool>, Score), j: int|
        #![trigger before.contains(e), after[j]]
        before.contains(e) && !after.contains(e) && 0 <= j < after.len() implies e.1.value()
        <= after[j].1.value() by {
        assert(before.contains(e) && !after.contains(e));
    }
}

/// The entries after each of `v` is stored, in order, pending evaluation.
pub open spec fn with_all_unscored(s: Entries, v: Seq<Seq<bool>>) -> Entries
    decreases v.len(),
{
    if v.len() == 0 {
        s
    } else {
        with_entry(with_all_unscored(s, v.drop_last()), v.last(), Score::Unscored)
    }
}

/// The exploration probability after an average score of `avg` follows one
/// of `prev`: a rising average shrinks it by `trend * DECREASE_FACTOR` of
/// itself, otherwise it grows by `INCREASE_FACTOR` times the fall; the result
/// is clamped to `[MIN_EPSILON, MAX_EPSILON]`.
pub open spec fn next_epsilon(epsilon: int, avg: int, prev: int) -> int {
    let trend = avg - prev;
    let raw = if trend > 0 {
        epsilon * (ONE - trend * DECREASE_FACTOR) / (ONE as int)
    } else {
        epsilon + INCREASE_FACTOR * (-trend)
    };
    if raw < MIN_EPSILON {
        MIN_EPSILON as int
    } else if raw > MAX_EPSILON {
        MAX_EPSILON as int
    } else {
        raw
    }
}

/// Whether `count < 2^e`.
fn below_pow2(count: usize, e: usize) -> (r: bool)
    ensures
        r == (count < pow2(e as nat)),
{
    proof {
        lemma2_to64();
    }
    let mut p: u128 = 1;
    let mut k: usize = 0;
    while k < e && p <= count as u128
        invariant
            k <= e,
            p == pow2(k as nat),
            p <= 2 * count + 2,
        decreases e - k,
    {
        proof {
            lemma_pow2_unfold((k + 1) as nat);
        }
        p = p * 2;
        k = k + 1;
    }
    proof {
        if k < e {
            lemma_pow2_strictly_increases(k as nat, e as nat);
        }
    }
    (count as u128) < p
}

/// A pattern of `drawn`'s length that `cache` does not hold: `drawn` itself
/// when it is free, otherwise one built bit by bit from it, keeping a drawn bit
/// while fewer cached states share the prefix so far than there are patterns
/// that extend it, and flipping it otherwise.
pub fn free_pattern(cache: &StateSpace, drawn: &Vec<bool>) -> (r: State)
    requires
        cache.wf(),
        forall|k: int| 0 <= k < cache@.len() ==> (#[trigger] cache@[k]).0.len() == drawn@.len(),
        cache@.len() < pow2(drawn@.len() as nat),
    ensures
        r@.len() == drawn@.len(),
        !has_key(cache@, r@),
        !has_key(cache@, drawn@) ==> r@ == drawn@,
{
    let pattern = State::from_bools(drawn);
    if !cache.contains(&pattern) {
        return pattern;
    }
    let n = drawn.len();
    let ghost space = cache@;
    let m = cache.len();
    let mut candidates: Vec<usize> = Vec::new();
    let mut c: usize = 0;
    while c < m
        invariant
            c <= m,
            candidates@ == Seq::new(c as nat, |t: int| t as usize),
        decreases m - c,
    {
        candidates.push(c);
        c = c + 1;
        assert(candidates@ =~= Seq::new(c as nat, |t: int| t as usize));
    }
    assert forall|k: int| 0 <= k < m && #[trigger] space[k].0.take(0) == Seq::<bool>::empty() implies candidates@.contains(k as usize) by {
        assert(candidates@[k] == k as usize);
    }
    let mut bits: Vec<bool> = Vec::new();
    let mut i: usize = 0;
    while i < n
        invariant
            cache.wf(),
            space == cache@,
            forall|k: int| 0 <= k < space.len() ==> (#[trigger] space[k]).0.len() == n,
            m == space.len(),
            drawn@.len() == n,
            i <= n,
            bits@.len() == i,
            forall|t: int| 0 <= t < candidates@.len() ==> #[trigger] candidates@[t] < m,
            forall|k: int|
                0 <= k < m && #[trigger] space[k].0.take(i as int) == bits@
                    ==> candidates@.contains(k as usize),
            candidates@.len() < pow2((n - i) as nat),
        decreases n - i,
    {
        let mut keep: Vec<usize> = Vec::new();
        let mut other: Vec<usize> = Vec::new();
        let mut t: usize = 0;
        while t < candidates.len()
            invariant
                cache.wf(),
                space == cache@,
                forall|k: int| 0 <= k < space.len() ==> (#[trigger] space[k]).0.len() == n,
                m == space.len(),
                i < n,
                drawn@.len() == n,
                forall|u: int| 0 <= u < candidates@.len() ==> #[trigger] candidates@[u] < m,
                t <= candidates@.len(),
                keep@.len() + other@.len() == t,
                forall|u: int| 0 <= u < keep@.len() ==> #[trigger] keep@[u] < m,
                forall|u: int| 0 <= u < other@.len() ==> #[trigger] other@[u] < m,
                forall|u: int|
                    0 <= u < t ==> (space[candidates@[u] as int].0[i as int] == drawn@[i as int]
                        ==> keep@.contains(#[trigger] candidates@[u])),
                forall|u: int|
                    0 <= u < t ==> (space[candidates@[u] as int].0[i as int] != drawn@[i as int]
                        ==> other@.contains(#[trigger] candidates@[u])),
            decreases candidates@.len() - t,
        {
            let k = candidates[t];
            assert(space[k as int].0.len() == n);
            let ghost keep_before = keep@;
            let ghost other_before = other@;
            if cache.state(k).bit_at(i) == drawn[i] {
                keep.push(k);
                assert(keep@[keep@.len() - 1] == k);
            } else {
                other.push(k);
                assert(other@[other@.len() - 1] == k);
            }
            proof {
                assert forall|x: usize| keep_before.contains(x) implies keep@.contains(x) by {
                    let j = choose|j: int| 0 <= j < keep_before.len() && keep_before[j] == x;
                    assert(keep@[j] == x);
                }
                assert forall|x: usize| other_before.contains(x) implies other@.contains(x) by {
                    let j = choose|j: int| 0 <= j < other_before.len() && other_before[j] == x;
                    assert(other@[j] == x);
                }
            }
            t = t + 1;
        }
        let rest = n - i - 1;
        proof {
            lemma_pow2_unfold((rest + 1) as nat);
            assert((n - i) as nat == (rest + 1) as nat);
        }
        let ghost old_bits = bits@;
        let ghost old_candidates = candidates@;
        if below_pow2(keep.len(), rest) {
            bits.push(drawn[i]);
            candidates = keep;
        } else {
            bits.push(!drawn[i]);
            candidates = other;
        }
        proof {
            assert forall|k: int|
                0 <= k < m && #[trigger] space[k].0.take((i + 1) as int) == bits@
                    implies candidates@.contains(k as usize) by {
                assert(space[k].0.take(i as int) =~= space[k].0.take((i + 1) as int).drop_last());
                assert(old_bits =~= bits@.drop_last());
                assert(old_candidates.contains(k as usize));
                let u = choose|u: int| 0 <= u < old_candidates.len() && old_candidates[u] == k as usize;
                assert(space[k].0[i as int] == bits@[i as int]);
            }
        }
        i = i + 1;
    }
    proof {
        lemma2_to64();
        assert(candidates@.len() == 0);
        assert forall|k: int| 0 <= k < m implies space[k].0 != bits@ by {
            if space[k].0 == bits@ {
                assert(space[k].0.take(n as int) =~= space[k].0);
                assert(candidates@.contains(k as usize));
            }
        }
    }
    State::from_bools(&bits)
}

/// The epsilon-greedy search agent.
pub struct Agent {
    pub state_space: StateSpace,
    /// The probability of exploring rather than exploiting, over `ONE`.
    pub epsilon: u64,
    /// Cells in each state.
    pub num_cells: usize,
    /// The average score at the last update, over `ONE`.
    pub previous_avg_value: u64,
    pub ga: GA,
}

impl Agent {
    pub open spec fn wf(&self) -> bool {
        &&& self.state_space.wf()
        &&& self.num_cells <= MAX_GRID_CELLS
        &&& forall|i: int|
            0 <= i < self.state_space@.len() ==> (#[trigger] self.state_space@[i]).0.len()
                == self.num_cells
        &&& forall|i: int|
            0 <= i < self.state_space@.len() ==> (#[trigger] self.state_space@[i]).1.value() <= ONE
        &&& self.previous_avg_value <= ONE
    }

    /// An agent with an empty cache for states of `num_cells` cells.
    pub fn new(epsilon: u64, num_cells: usize) -> (r: Agent)
        requires
            num_cells <= MAX_GRID_CELLS,
        ensures
            r.wf(),
            r.state_space@.len() == 0,
            r.epsilon == epsilon,
            r.num_cells == num_cells,
            r.previous_avg_value == 0,
            r.ga.tournament_winners_percentage == TOURNAMENT_WINNERS_PERCENTAGE,
            r.ga.selection_pressure == SELECTION_PRESSURE,
            r.ga.mutation_rate == MUTATION_RATE,
            r.ga.crossover_rate == CROSSOVER_RATE,
    {
        let ga = GA::new(
            TOURNAMENT_WINNERS_PERCENTAGE,
            SELECTION_PRESSURE,
            MUTATION_RATE,
            CROSSOVER_RATE,
        );
        Agent { state_space: StateSpace::new(), epsilon, num_cells, previous_avg_value: 0, ga }
    }

    /// The score of `state`, simulated on the grid of a `w` by `h` window.
    fn run_state(&self, w: usize, h: usize, state: &State) -> (r: u64)
        requires
            self.num_cells <= MAX_GRID_CELLS,
            state@.len() == self.num_cells,
            side_cells(w as nat) * side_cells(h as nat) <= self.num_cells,
        ensures
            r == state_score(state@, side_cells(w as nat), side_cells(h as nat), self.num_cells as nat),
            r <= ONE,
    {
        let cols = get_side_cells(w);
        let rows = get_side_cells(h);
        let outcome = simulate(cols, rows, state, MAX_POPULATION_AGE, MAX_POPULATION_REPEATS);
        fitness(
            outcome.initial_population,
            outcome.final_population,
            outcome.age,
            outcome.standard_deviation,
            self.num_cells,
            MAX_POPULATION_AGE,
        )
    }

    /// The mean score of the cache, rounded down; 0 when it is empty.
    fn get_average_state_value(&self) -> (r: u64)
        requires
            self.wf(),
        ensures
            r == average_score(self.state_space@),
            r <= ONE,
    {
        let ghost s = self.state_space@;
        let n = self.state_space.len();
        let mut total: u128 = 0;
        let mut i: usize = 0;
        while i < n
            invariant
                self.wf(),
                s == self.state_space@,
                n == s.len(),
                i <= n,
                total == score_sum(s.take(i as int)),
                total <= i * ONE,
            decreases n - i,
        {
            assert(s.take(i + 1).drop_last() =~= s.take(i as int));
            assert(s[i as int].1.value() <= ONE);
            total = total + self.state_space.score(i).get_value() as u128;
            i = i + 1;
        }
        assert(s.take(n as int) =~= s);
        if n == 0 {
            return 0;
        }
        proof {
            lemma_div_is_ordered(total as int, (n * ONE) as int, n as int);
            lemma_div_multiples_vanish(ONE as int, n as int);
            assert(n * ONE == n * (ONE as int));
        }
        (total / n as u128) as u64
    }

    /// Removes the first entry of lowest score, repeatedly, until the cache
    /// holds at most `MAX_STATE_SPACE_SIZE` entries.
    fn prune(&mut self)
        requires
            old(self).wf(),
        ensures
            final(self).wf(),
            final(self).num_cells == old(self).num_cells,
            final(self).epsilon == old(self).epsilon,
            final(self).previous_avg_value == old(self).previous_avg_value,
            final(self).ga == old(self).ga,
            pruned(old(self).state_space@, final(self).state_space@, MAX_STATE_SPACE_SIZE as nat),
    {
        let ghost before = self.state_space@;
        while self.state_space.len() > MAX_STATE_SPACE_SIZE
            invariant
                self.wf(),
                self.num_cells == old(self).num_cells,
                self.epsilon == old(self).epsilon,
                self.previous_avg_value == old(self).previous_avg_value,
                self.ga == old(self).ga,
                before == old(self).state_space@,
                before.len() > MAX_STATE_SPACE_SIZE ==> self.state_space@.len()
                    >= MAX_STATE_SPACE_SIZE,
                before.len() <= MAX_STATE_SPACE_SIZE ==> self.state_space@ == before,
                forall|i: int|
                    0 <= i < self.state_space@.len() ==> before.contains(
                        #[trigger] self.state_space@[i],
                    ),
                forall|e: (Seq<bool>, Score)|
                    #[trigger] before.contains(e) && !self.state_space@.contains(e) ==> forall|
                        j: int,
                    |
                        0 <= j < self.state_space@.len() ==> #[trigger] self.state_space@[j].1.value()
                            >= e.1.value(),
            decreases self.state_space@.len(),
        {
            let ghost cur = self.state_space@;
            let k = self.state_space.lowest();
            self.state_space.remove(k);
            proof {
                let next = self.state_space@;
                assert(next == cur.remove(k as int));
                assert forall|j: int| 0 <= j < next.len() implies next[j] == cur[if j < k {
                    j
                } else {
                    j + 1
                }] by {}
                assert forall|e: (Seq<bool>, Score)|
                    #[trigger] before.contains(e) && !next.contains(e) implies forall|j: int|
                    0 <= j < next.len() ==> #[trigger] next[j].1.value() >= e.1.value() by {
                    if cur.contains(e) {
                        let c = choose|c: int| 0 <= c < cur.len() && cur[c] == e;
                        if c != k {
                            let j = if c < k { c } else { c - 1 };
                            assert(next[j] == e);
                        }
                        assert forall|j: int| 0 <= j < next.len() implies #[trigger] next[j].1.value()
                            >= e.1.value() by {
                            let jj = if j < k { j } else { j + 1 };
                            assert(next[j] == cur[jj]);
                        }
                    } else {
                        assert forall|j: int| 0 <= j < next.len() implies #[trigger] next[j].1.value()
                            >= e.1.value() by {
                            let jj = if j < k { j } else { j + 1 };
                            assert(next[j] == cur[jj]);
                        }
                    }
                }
                assert forall|i: int| 0 <= i < next.len() implies before.contains(#[trigger] next[i]) by {
                    let ii = if i < k { i } else { i + 1 };
                    assert(next[i] == cur[ii]);
                }
                assert forall|i: int| 0 <= i < next.len() implies (#[trigger] next[i]).0.len()
                    == self.num_cells && next[i].1.value() <= ONE by {
                    let ii = if i < k { i } else { i + 1 };
                    assert(next[i] == cur[ii]);
                }
            }
        }
    }

    /// Scores every pending entry by simulating it on the grid of a `w` by `h`
    /// window, prunes the cache to `MAX_STATE_SPACE_SIZE` entries, and adapts
    /// `epsilon` to the new average score.
    pub fn update(&mut self, w: usize, h: usize)
        requires
            old(self).wf(),
            side_cells(w as nat) * side_cells(h as nat) <= old(self).num_cells,
        ensures
            final(self).wf(),
            final(self).num_cells == old(self).num_cells,
            final(self).ga == old(self).ga,
            pruned(
                evaluated(
                    old(self).state_space@,
                    side_cells(w as nat),
                    side_cells(h as nat),
                    old(self).num_cells as nat,
                ),
                final(self).state_space@,
                MAX_STATE_SPACE_SIZE as nat,
            ),
            final(self).previous_avg_value == average_score(final(self).state_space@),
            final(self).epsilon == next_epsilon(
                old(self).epsilon as int,
                average_score(final(self).state_space@) as int,
                old(self).previous_avg_value as int,
            ),
    {
        let ghost target = evaluated(
            self.state_space@,
            side_cells(w as nat),
            side_cells(h as nat),
            self.num_cells as nat,
        );
        let n = self.state_space.len();
        let mut i: usize = 0;
        while i < n
            invariant
                self.wf(),
                self.num_cells == old(self).num_cells,
                self.epsilon == old(self).epsilon,
                self.previous_avg_value == old(self).previous_avg_value,
                self.ga == old(self).ga,
                side_cells(w as nat) * side_cells(h as nat) <= self.num_cells,
                target == evaluated(
                    old(self).state_space@,
                    side_cells(w as nat),
                    side_cells(h as nat),
                    self.num_cells as nat,
                ),
                n == self.state_space@.len(),
                n == old(self).state_space@.len(),
                i <= n,
                forall|k: int| 0 <= k < i ==> #[trigger] self.state_space@[k] == target[k],
                forall|k: int| i <= k < n ==> #[trigger] self.state_space@[k] == old(self).state_space@[k],
            decreases n - i,
        {
            if self.state_space.score(i) == Score::Unscored {
                let value = self.run_state(w, h, self.state_space.state(i));
                self.state_space.set_score(i, Score::Scored(value));
            }
            i = i + 1;
        }
        assert(self.state_space@ =~= target);
        if self.state_space.len() > MAX_STATE_SPACE_SIZE {
            self.prune();
        } else {
            assert forall|e: (Seq<bool>, Score)| #[trigger] target.contains(e) && !self.state_space@.contains(e) implies forall|j: int|
                0 <= j < self.state_space@.len() ==> #[trigger] self.state_space@[j].1.value() >= e.1.value() by {}
        }
        self.update_epsilon();
    }

    /// Draws a uniformly random pattern of `num_cells` cells, takes the free
    /// pattern for it (see `free_pattern`), and stores that pending evaluation.
    pub fn get_new_state(&mut self, rng: &mut StdRng) -> (r: State)
        requires
            old(self).wf(),
            old(self).state_space@.len() < pow2(old(self).num_cells as nat),
        ensures
            final(self).wf(),
            r@.len() == old(self).num_cells,
            !has_key(old(self).state_space@, r@),
            final(self).state_space@ == old(self).state_space@.push((r@, Score::Unscored)),
            final(self).num_cells == old(self).num_cells,
            final(self).epsilon == old(self).epsilon,
            final(self).previous_avg_value == old(self).previous_avg_value,
            final(self).ga == old(self).ga,
    {
        let n = self.num_cells;
        let mut drawn: Vec<bool> = Vec::new();
        let mut d: usize = 0;
        while d < n
            invariant
                d <= n,
                drawn@.len() == d,
            decreases n - d,
        {
            drawn.push(below(rng, 2) == 1);
            d = d + 1;
        }
        let ghost space = self.state_space@;
        let m = self.state_space.len();
        let state = free_pattern(&self.state_space, &drawn);
        self.state_space.insert(state.copy(), Score::Unscored);
        proof {
            assert(with_entry(space, state@, Score::Unscored) == space.push((state@, Score::Unscored)));
            let next = self.state_space@;
            assert forall|k: int| 0 <= k < next.len() implies (#[trigger] next[k]).0.len() == n && next[k].1.value() <= ONE by {
                if k < m {
                    assert(next[k] == space[k]);
                }
            }
        }
        state
    }

    /// Draws and stores a state the cache does not hold (see `get_new_state`).
    pub fn explore(&mut self, rng: &mut StdRng) -> (r: State)
        requires
            old(self).wf(),
            old(self).state_space@.len() < pow2(old(self).num_cells as nat),
        ensures
            final(self).wf(),
            r@.len() == old(self).num_cells,
            !has_key(old(self).state_space@, r@),
            final(self).state_space@ == old(self).state_space@.push((r@, Score::Unscored)),
            final(self).num_cells == old(self).num_cells,
            final(self).epsilon == old(self).epsilon,
            final(self).previous_avg_value == old(self).previous_avg_value,
            final(self).ga == old(self).ga,
    {
        self.get_new_state(rng)
    }

    /// The first cached state of highest score; from an empty cache, a newly
    /// explored state.
    pub fn get_best_state(&mut self, rng: &mut StdRng) -> (r: State)
        requires
            old(self).wf(),
        ensures
            final(self).wf(),
            final(self).num_cells == old(self).num_cells,
            final(self).epsilon == old(self).epsilon,
            final(self).previous_avg_value == old(self).previous_avg_value,
            final(self).ga == old(self).ga,
            old(self).state_space@.len() == 0 ==> {
                &&& r@.len() == old(self).num_cells
                &&& final(self).state_space@ == seq![(r@, Score::Unscored)]
            },
            old(self).state_space@.len() > 0 ==> {
                &&& final(self).state_space@ == old(self).state_space@
                &&& exists|k: int|
                    is_first_highest(old(self).state_space@, k) && r@ == old(self).state_space@[k].0
            },
    {
        if self.state_space.is_empty() {
            proof {
                lemma2_to64();
                if self.num_cells > 0 {
                    lemma_pow2_strictly_increases(0, self.num_cells as nat);
                }
            }
            let state = self.get_new_state(rng);
            assert(self.state_space@ =~= seq![(state@, Score::Unscored)]);
            return state;
        }
        let k = self.state_space.highest();
        self.state_space.state(k).copy()
    }

    /// Evolves the cache with the genetic operators and stores every candidate
    /// pending evaluation (a candidate already cached has its score reset).
    /// When evolution fails the cache is left as it is.
    pub fn exploit(&mut self, rng: &mut StdRng)
        requires
            old(self).wf(),
        ensures
            final(self).wf(),
            final(self).num_cells == old(self).num_cells,
            final(self).epsilon == old(self).epsilon,
            final(self).previous_avg_value == old(self).previous_avg_value,
            final(self).ga == old(self).ga,
            ({
                let p = old(self).state_space@.len();
                let k = winner_count(p, old(self).ga.tournament_winners_percentage as nat);
                &&& (k < 2 || k > p || old(self).num_cells == 0) ==> final(self).state_space@
                    == old(self).state_space@
                &&& !(k < 2 || k > p || old(self).num_cells == 0) ==> exists|v: Seq<Seq<bool>>|
                    {
                        &&& v.len() == k
                        &&& forall|i: int| 0 <= i < k ==> (#[trigger] v[i]).len() == old(self).num_cells
                        &&& final(self).state_space@ == with_all_unscored(old(self).state_space@, v)
                    }
            }),
    {
        let new_states = match self.ga.evolve(&self.state_space, rng) {
            Some(states) => states,
            None => {
                return;
            },
        };
        let ghost v = views(new_states@);
        let ghost start = self.state_space@;
        assert(start[0].0.len() == self.num_cells);
        assert forall|i: int| 0 <= i < v.len() implies (#[trigger] v[i]).len() == start[0].0.len() by {
            assert(v[i] == new_states@[i]@);
        }
        let mut j: usize = 0;
        while j < new_states.len()
            invariant
                self.wf(),
                self.num_cells == old(self).num_cells,
                self.epsilon == old(self).epsilon,
                self.previous_avg_value == old(self).previous_avg_value,
                self.ga == old(self).ga,
                start == old(self).state_space@,
                v == views(new_states@),
                start.len() > 0,
                start[0].0.len() == self.num_cells,
                forall|i: int| 0 <= i < v.len() ==> (#[trigger] v[i]).len() == start[0].0.len(),
                j <= v.len(),
                self.state_space@ == with_all_unscored(start, v.take(j as int)),
            decreases v.len() - j,
        {
            let ghost cur = self.state_space@;
            let state = new_states[j].copy();
            self.state_space.insert(state, Score::Unscored);
            proof {
                assert(v.take(j + 1).drop_last() =~= v.take(j as int));
                assert(v.take(j + 1).last() == v[j as int]);
                let next = self.state_space@;
                assert forall|k: int| 0 <= k < next.len() implies (#[trigger] next[k]).0.len()
                    == self.num_cells && next[k].1.value() <= ONE by {
                    if k < cur.len() && next[k] != cur[k] {
                        assert(next[k].1 == Score::Unscored);
                    }
                    if k >= cur.len() {
                        assert(next[k] == (v[j as int], Score::Unscored));
                    }
                }
            }
            j = j + 1;
        }
        assert(v.take(v.len() as int) =~= v);
    }

    /// Moves `epsilon` by the trend of the average score and records the average.
    pub fn update_epsilon(&mut self)
        requires
            old(self).wf(),
        ensures
            final(self).wf(),
            final(self).state_space@ == old(self).state_space@,
            final(self).num_cells == old(self).num_cells,
            final(self).ga == old(self).ga,
            final(self).previous_avg_value == average_score(old(self).state_space@),
            final(self).epsilon == next_epsilon(
                old(self).epsilon as int,
                average_score(old(self).state_space@) as int,
                old(self).previous_avg_value as int,
            ),
    {
        let avg = self.get_average_state_value();
        let prev = self.previous_avg_value;
        let epsilon = self.epsilon as u128;
        let raw: u128;
        if avg > prev {
            let trend = (avg - prev) as u128;
            assert(trend * 100 <= 100_000_000) by (nonlinear_arith)
                requires
                    trend <= 1_000_000,
            ;
            let drop = trend * DECREASE_FACTOR as u128;
            if drop >= ONE as u128 {
                proof {
                    let f = ONE - drop;
                    assert(epsilon * f <= 0) by (nonlinear_arith)
                        requires
                            epsilon >= 0,
                            f <= 0,
                    ;
                    lemma_div_is_ordered(epsilon * f, 0, ONE as int);
                }
                raw = 0;
            } else {
                proof {
                    assert(epsilon * (ONE - drop) <= 0xffff_ffff_ffff_ffff * ONE) by (nonlinear_arith)
                        requires
                            epsilon <= 0xffff_ffff_ffff_ffffu64,
                            0 < ONE - drop <= ONE,
                    ;
                }
                raw = epsilon * (ONE as u128 - drop) / ONE as u128;
            }
        } else {
            raw = epsilon + INCREASE_FACTOR as u128 * (prev - avg) as u128;
        }
        self.epsilon = if raw < MIN_EPSILON as u128 {
            MIN_EPSILON
        } else if raw > MAX_EPSILON as u128 {
            MAX_EPSILON
        } else {
            raw as u64
        };
        self.previous_avg_value = avg;
    }
}

} // verus!
