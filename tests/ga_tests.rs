use life_search::bits::State;
use life_search::constants::ONE;
use life_search::ga::{copy_block, flip_bits, GA};
use life_search::space::{Score, StateSpace};
use rand::rngs::StdRng;
use rand::SeedableRng;

fn pattern(value: usize, len: usize) -> State {
    let bits: Vec<bool> = (0..len).map(|b| (value >> b) & 1 == 1).collect();
    State::from_bools(&bits)
}

fn scored_space(scores: &[u64], len: usize) -> StateSpace {
    let mut space = StateSpace::new();
    for (i, &s) in scores.iter().enumerate() {
        space.insert(pattern(i, len), Score::Scored(s));
    }
    space
}

const SCORES: [u64; 10] = [3, 8, 1, 1, 9, 2, 5, 5, 0, 7];

#[test]
fn full_pressure_picks_each_batch_maximum() {
    let space = scored_space(&SCORES, 4);
    let ga = GA::new(700_000, ONE, 0, 0);
    let mut rng = StdRng::seed_from_u64(7);
    let winners = ga.tournament_selection(&space, &mut rng).unwrap();
    assert_eq!(winners, vec![1, 2, 4, 6, 7, 8, 9]);
}

#[test]
fn winner_count_is_ceiling_of_share() {
    let space = scored_space(&SCORES, 4);
    for seed in 0..20 {
        let ga = GA::new(700_000, 500_000, 0, 0);
        let mut rng = StdRng::seed_from_u64(seed);
        let winners = ga.tournament_selection(&space, &mut rng).unwrap();
        assert_eq!(winners.len(), 7);
        for w in winners.windows(2) {
            assert!(w[0] < w[1]);
        }
        // Batches of sizes 2, 2, 2, 1, 1, 1, 1.
        let starts = [0usize, 2, 4, 6, 7, 8, 9];
        let ends = [2usize, 4, 6, 7, 8, 9, 10];
        for b in 0..7 {
            assert!(starts[b] <= winners[b] && winners[b] < ends[b]);
        }
    }
    let ga = GA::new(250_000, ONE, 0, 0);
    let mut rng = StdRng::seed_from_u64(1);
    assert_eq!(ga.tournament_selection(&space, &mut rng).unwrap().len(), 3);
}

#[test]
fn tournament_fails_without_batches() {
    let mut rng = StdRng::seed_from_u64(3);
    let empty = StateSpace::new();
    assert_eq!(GA::new(700_000, ONE, 0, 0).tournament_selection(&empty, &mut rng), None);
    let space = scored_space(&[1, 2, 3], 4);
    assert_eq!(GA::new(0, ONE, 0, 0).tournament_selection(&space, &mut rng), None);
    assert_eq!(GA::new(2 * ONE, ONE, 0, 0).tournament_selection(&space, &mut rng), None);
}

#[test]
fn crossover_at_rate_zero_keeps_parents() {
    let winners = vec![pattern(5, 9), pattern(300, 9), pattern(77, 9)];
    let ga = GA::new(700_000, ONE, 0, 0);
    let mut rng = StdRng::seed_from_u64(11);
    let out = ga.crossover(&winners, &mut rng).unwrap();
    assert_eq!(out.len(), 3);
    for i in 0..3 {
        assert_eq!(out[i].to_bools(), winners[i].to_bools());
    }
}

#[test]
fn crossover_at_full_rate_changes_complementary_parents() {
    for seed in 0..20 {
        let winners = vec![
            State::from_bools(&vec![true; 16]),
            State::from_bools(&vec![false; 16]),
        ];
        let ga = GA::new(700_000, ONE, 0, ONE);
        let mut rng = StdRng::seed_from_u64(seed);
        let out = ga.crossover(&winners, &mut rng).unwrap();
        assert_eq!(out.len(), 2);
        assert_ne!(out[0].to_bools(), winners[0].to_bools());
        assert_ne!(out[1].to_bools(), winners[1].to_bools());
        assert_eq!(out[0].to_bools().len(), 16);
    }
}

#[test]
fn crossover_cells_come_from_parents() {
    let a = pattern(0b1010_1100_0011_0101, 16);
    let b = pattern(0b0110_0101_1100_1010, 16);
    let c = pattern(0b1111_0000_1111_0000, 16);
    let winners = vec![a, b, c];
    let ga = GA::new(700_000, ONE, 0, ONE);
    let mut rng = StdRng::seed_from_u64(5);
    let out = ga.crossover(&winners, &mut rng).unwrap();
    for i in 0..3 {
        let child = out[i].to_bools();
        let parent = winners[i].to_bools();
        let from_other = (0..3).filter(|&j| j != i).any(|j| {
            let partner = winners[j].to_bools();
            (0..16).all(|t| child[t] == parent[t] || child[t] == partner[t])
                && (0..16).any(|t| child[t] == partner[t])
        });
        assert!(from_other);
    }
}

#[test]
fn crossover_fails_on_degenerate_winners() {
    let ga = GA::new(700_000, ONE, 0, ONE);
    let mut rng = StdRng::seed_from_u64(2);
    assert!(ga.crossover(&vec![pattern(1, 9)], &mut rng).is_none());
    assert!(ga.crossover(&vec![], &mut rng).is_none());
    let empty = vec![State::from_bools(&vec![]), State::from_bools(&vec![])];
    assert!(ga.crossover(&empty, &mut rng).is_none());
}

#[test]
fn mutation_at_rate_zero_keeps_states() {
    let ga = GA::new(700_000, ONE, 0, 0);
    let mut rng = StdRng::seed_from_u64(9);
    let expected = vec![pattern(12345, 20), pattern(999, 20)];
    let mut states = vec![pattern(12345, 20), pattern(999, 20)];
    assert_eq!(ga.mutate(&mut states, &mut rng), Some(()));
    for i in 0..2 {
        assert_eq!(states[i].to_bools(), expected[i].to_bools());
    }
}

#[test]
fn mutation_at_full_rate_keeps_lengths() {
    let ga = GA::new(700_000, ONE, ONE, 0);
    let mut rng = StdRng::seed_from_u64(4);
    let mut states = vec![pattern(1, 400), pattern(2, 400), pattern(3, 400)];
    assert_eq!(ga.mutate(&mut states, &mut rng), Some(()));
    assert_eq!(states.len(), 3);
    let mut changed = 0;
    for (i, s) in states.iter().enumerate() {
        assert_eq!(s.to_bools().len(), 400);
        if s.to_bools() != pattern(i + 1, 400).to_bools() {
            changed += 1;
        }
    }
    assert!(changed > 0);
}

#[test]
fn mutation_fails_on_degenerate_states() {
    let ga = GA::new(700_000, ONE, ONE, 0);
    let mut rng = StdRng::seed_from_u64(4);
    let mut none: Vec<State> = vec![];
    assert_eq!(ga.mutate(&mut none, &mut rng), None);
    let mut empty = vec![State::from_bools(&vec![])];
    assert_eq!(ga.mutate(&mut empty, &mut rng), None);
}

#[test]
fn evolve_without_variation_returns_batch_maxima() {
    let space = scored_space(&SCORES, 16);
    let ga = GA::new(700_000, ONE, 0, 0);
    let mut rng = StdRng::seed_from_u64(8);
    let out = ga.evolve(&space, &mut rng).unwrap();
    let expected: Vec<Vec<bool>> = [1usize, 2, 4, 6, 7, 8, 9].iter().map(|&i| pattern(i, 16).to_bools()).collect();
    let got: Vec<Vec<bool>> = out.iter().map(|s| s.to_bools()).collect();
    assert_eq!(got, expected);
}

#[test]
fn evolve_yields_one_candidate_per_winner() {
    let space = scored_space(&SCORES, 16);
    let ga = GA::new(700_000, 780_000, 200_000, 720_000);
    for seed in 0..10 {
        let mut rng = StdRng::seed_from_u64(seed);
        let out = ga.evolve(&space, &mut rng).unwrap();
        assert_eq!(out.len(), 7);
        for s in &out {
            assert_eq!(s.to_bools().len(), 16);
        }
    }
}

#[test]
fn evolve_fails_on_small_populations() {
    let ga = GA::new(700_000, 780_000, 200_000, 720_000);
    let mut rng = StdRng::seed_from_u64(6);
    assert!(ga.evolve(&StateSpace::new(), &mut rng).is_none());
    assert!(ga.evolve(&scored_space(&[4], 16), &mut rng).is_none());
    assert!(ga.evolve(&scored_space(&[4, 5], 16), &mut rng).is_some());
}

#[test]
fn copy_block_takes_the_square_from_the_partner() {
    let mut child = State::from_bools(&vec![false; 16]);
    let partner = State::from_bools(&vec![true; 16]);
    copy_block(&mut child, &partner, 4, 1, 2, 2);
    let mut expected = vec![false; 16];
    for i in [9usize, 10, 13, 14] {
        expected[i] = true;
    }
    assert_eq!(child.to_bools(), expected);
}

#[test]
fn copy_block_of_size_zero_changes_nothing() {
    let mut child = pattern(0b1010, 9);
    let partner = State::from_bools(&vec![true; 9]);
    copy_block(&mut child, &partner, 3, 3, 0, 0);
    assert_eq!(child.to_bools(), pattern(0b1010, 9).to_bools());
}

#[test]
fn flip_bits_cancels_repeated_points() {
    let mut state = State::from_bools(&vec![false; 4]);
    flip_bits(&mut state, &vec![1, 1, 2, 3, 3, 3]);
    assert_eq!(state.to_bools(), vec![false, false, true, true]);
    flip_bits(&mut state, &vec![]);
    assert_eq!(state.to_bools(), vec![false, false, true, true]);
}
