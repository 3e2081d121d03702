use life_search::agent::{free_pattern, Agent};
use life_search::space::StateSpace;
use life_search::bits::State;
use life_search::constants::{EPSILON, MAX_EPSILON, MAX_STATE_SPACE_SIZE, MIN_EPSILON, ONE};
use life_search::space::Score;
use rand::rngs::StdRng;
use rand::SeedableRng;

fn pattern(value: usize, len: usize) -> State {
    let bits: Vec<bool> = (0..len).map(|b| (value >> b) & 1 == 1).collect();
    State::from_bools(&bits)
}

#[test]
fn new_agent_is_empty() {
    let agent = Agent::new(EPSILON, 400);
    assert_eq!(agent.epsilon, EPSILON);
    assert_eq!(agent.num_cells, 400);
    assert_eq!(agent.previous_avg_value, 0);
    assert_eq!(agent.state_space.len(), 0);
    assert_eq!(agent.ga.tournament_winners_percentage, 700_000);
    assert_eq!(agent.ga.crossover_rate, 720_000);
}

#[test]
fn explore_returns_an_uncached_state() {
    let mut agent = Agent::new(EPSILON, 400);
    let mut rng = StdRng::seed_from_u64(1);
    let s = agent.explore(&mut rng);
    assert_eq!(s.to_bools().len(), 400);
    assert_eq!(agent.state_space.len(), 1);
    assert_eq!(agent.state_space.score(0), Score::Unscored);
    assert_eq!(agent.state_space.state(0).to_bools(), s.to_bools());
}

#[test]
fn explore_fills_a_tiny_state_space_without_repeats() {
    let mut agent = Agent::new(EPSILON, 3);
    let mut rng = StdRng::seed_from_u64(2);
    let mut seen: Vec<Vec<bool>> = Vec::new();
    for _ in 0..8 {
        let s = agent.explore(&mut rng).to_bools();
        assert!(!seen.contains(&s));
        seen.push(s);
    }
    assert_eq!(agent.state_space.len(), 8);
}

#[test]
fn get_new_state_avoids_a_nearly_full_cache() {
    let mut agent = Agent::new(EPSILON, 4);
    for v in 0..15 {
        agent.state_space.insert(pattern(v, 4), Score::Scored(1));
    }
    let mut rng = StdRng::seed_from_u64(3);
    let s = agent.get_new_state(&mut rng);
    assert_eq!(s.to_bools(), pattern(15, 4).to_bools());
    assert_eq!(agent.state_space.len(), 16);
}

#[test]
fn best_state_of_empty_cache_is_explored() {
    let mut agent = Agent::new(EPSILON, 400);
    let mut rng = StdRng::seed_from_u64(4);
    let s = agent.get_best_state(&mut rng);
    assert_eq!(s.to_bools().len(), 400);
    assert_eq!(agent.state_space.len(), 1);
}

#[test]
fn best_state_is_first_highest() {
    let mut agent = Agent::new(EPSILON, 4);
    agent.state_space.insert(pattern(1, 4), Score::Scored(10));
    agent.state_space.insert(pattern(2, 4), Score::Scored(30));
    agent.state_space.insert(pattern(3, 4), Score::Scored(30));
    agent.state_space.insert(pattern(4, 4), Score::Unscored);
    let mut rng = StdRng::seed_from_u64(5);
    let s = agent.get_best_state(&mut rng);
    assert_eq!(s.to_bools(), pattern(2, 4).to_bools());
    assert_eq!(agent.state_space.len(), 4);
}

#[test]
fn update_scores_every_pending_state() {
    let mut agent = Agent::new(EPSILON, 400);
    let mut rng = StdRng::seed_from_u64(6);
    for _ in 0..3 {
        agent.explore(&mut rng);
    }
    agent.update(800, 800);
    assert_eq!(agent.state_space.len(), 3);
    let mut total = 0u64;
    for i in 0..3 {
        match agent.state_space.score(i) {
            Score::Scored(v) => {
                assert!(v <= ONE);
                total += v;
            }
            Score::Unscored => panic!("entry left unscored"),
        }
    }
    assert_eq!(agent.previous_avg_value, total / 3);
    assert!(agent.epsilon >= MIN_EPSILON && agent.epsilon <= MAX_EPSILON);
}

#[test]
fn update_scores_a_blinker_by_its_run() {
    let mut agent = Agent::new(EPSILON, 400);
    let mut cells = vec![false; 400];
    cells[10 * 20 + 9] = true;
    cells[10 * 20 + 10] = true;
    cells[10 * 20 + 11] = true;
    agent.state_space.insert(State::from_bools(&cells), Score::Unscored);
    agent.update(800, 800);
    // A blinker holds its population: no spread, so no score.
    assert_eq!(agent.state_space.score(0), Score::Scored(0));
}

#[test]
fn update_prunes_the_lowest_scores() {
    let mut agent = Agent::new(EPSILON, 10);
    for v in 0..830 {
        agent.state_space.insert(pattern(v, 10), Score::Scored(((v * 7919) % 830) as u64));
    }
    agent.update(0, 0);
    assert_eq!(agent.state_space.len(), MAX_STATE_SPACE_SIZE);
    let mut min_kept = u64::MAX;
    for i in 0..agent.state_space.len() {
        min_kept = min_kept.min(agent.state_space.score(i).get_value());
    }
    assert_eq!(min_kept, 10);
}

#[test]
fn rising_average_lowers_epsilon() {
    let mut agent = Agent::new(200_000, 4);
    agent.state_space.insert(pattern(1, 4), Score::Scored(1000));
    agent.state_space.insert(pattern(2, 4), Score::Scored(1000));
    agent.update_epsilon();
    assert_eq!(agent.epsilon, 180_000);
    assert_eq!(agent.previous_avg_value, 1000);
}

#[test]
fn falling_average_raises_epsilon() {
    let mut agent = Agent::new(200_000, 4);
    agent.previous_avg_value = 1000;
    agent.state_space.insert(pattern(1, 4), Score::Scored(0));
    agent.update_epsilon();
    assert_eq!(agent.epsilon, 400_000);
    assert_eq!(agent.previous_avg_value, 0);
}

#[test]
fn epsilon_is_clamped() {
    let mut agent = Agent::new(200_000, 4);
    agent.state_space.insert(pattern(1, 4), Score::Scored(20_000));
    agent.update_epsilon();
    assert_eq!(agent.epsilon, MIN_EPSILON);

    let mut agent = Agent::new(790_000, 4);
    agent.previous_avg_value = 1000;
    agent.state_space.insert(pattern(1, 4), Score::Scored(0));
    agent.update_epsilon();
    assert_eq!(agent.epsilon, MAX_EPSILON);
}

#[test]
fn empty_cache_averages_zero() {
    let mut agent = Agent::new(200_000, 4);
    agent.update_epsilon();
    assert_eq!(agent.epsilon, 200_000);
    assert_eq!(agent.previous_avg_value, 0);
}

#[test]
fn exploit_adds_pending_candidates() {
    let mut agent = Agent::new(EPSILON, 16);
    for v in 0..10 {
        agent.state_space.insert(pattern(v * 1000 + 1, 16), Score::Scored(v as u64 * 10));
    }
    let mut rng = StdRng::seed_from_u64(10);
    agent.exploit(&mut rng);
    let len = agent.state_space.len();
    assert!(len >= 10 && len <= 17);
    for i in 0..len {
        assert_eq!(agent.state_space.state(i).to_bools().len(), 16);
    }
    let pending = (0..len).filter(|&i| agent.state_space.score(i) == Score::Unscored).count();
    assert!(pending >= 1 && pending <= 7);
}

#[test]
fn exploit_of_a_single_entry_does_nothing() {
    let mut agent = Agent::new(EPSILON, 16);
    agent.state_space.insert(pattern(3, 16), Score::Scored(5));
    let mut rng = StdRng::seed_from_u64(12);
    agent.exploit(&mut rng);
    assert_eq!(agent.state_space.len(), 1);
    assert_eq!(agent.state_space.score(0), Score::Scored(5));
}

#[test]
fn free_pattern_keeps_an_uncached_draw() {
    let mut cache = StateSpace::new();
    cache.insert(pattern(0, 4), Score::Scored(1));
    cache.insert(pattern(1, 4), Score::Scored(1));
    let r = free_pattern(&cache, &pattern(5, 4).to_bools());
    assert_eq!(r.to_bools(), pattern(5, 4).to_bools());
}

#[test]
fn free_pattern_replaces_a_cached_draw() {
    let mut cache = StateSpace::new();
    cache.insert(pattern(0, 4), Score::Scored(1));
    cache.insert(pattern(1, 4), Score::Scored(1));
    let r = free_pattern(&cache, &pattern(0, 4).to_bools());
    assert_eq!(r.to_bools(), pattern(8, 4).to_bools());
}

#[test]
fn free_pattern_finds_the_last_free_slot() {
    let mut cache = StateSpace::new();
    for v in 0..15 {
        if v != 6 {
            cache.insert(pattern(v, 4), Score::Unscored);
        }
    }
    cache.insert(pattern(15, 4), Score::Unscored);
    for v in 0..16 {
        let r = free_pattern(&cache, &pattern(v, 4).to_bools());
        assert_eq!(r.to_bools(), pattern(6, 4).to_bools());
    }
}

#[test]
fn free_pattern_of_empty_cache_is_the_draw() {
    let cache = StateSpace::new();
    assert_eq!(free_pattern(&cache, &vec![]).to_bools(), Vec::<bool>::new());
    assert_eq!(free_pattern(&cache, &vec![true, false]).to_bools(), vec![true, false]);
}
