use life_search::constants::ONE;
use life_search::fitness::fitness;

#[test]
fn no_growth_full_age_full_spread_scores_half() {
    assert_eq!(fitness(0, 0, 2000, 400_000, 400, 2000), 500_000);
}

#[test]
fn full_growth_scores_logistic_of_one() {
    assert_eq!(fitness(0, 400, 2000, 400_000, 400, 2000), 731_058);
}

#[test]
fn full_decline_scores_logistic_of_minus_one() {
    assert_eq!(fitness(400, 0, 2000, 400_000, 400, 2000), 268_941);
}

#[test]
fn partial_growth_exact_value() {
    assert_eq!(fitness(10, 20, 100, 5000, 100, 2000), 1312);
}

#[test]
fn score_is_capped_at_one() {
    assert_eq!(fitness(0, 400, 2000, 2_000_000, 400, 1000), ONE);
}

#[test]
fn static_survivor_scores_zero() {
    assert_eq!(fitness(3, 3, 24, 0, 25, 2000), 0);
}

#[test]
fn degenerate_inputs_score_zero() {
    assert_eq!(fitness(0, 0, 0, 0, 0, 2000), 0);
    assert_eq!(fitness(0, 0, 0, 0, 9, 0), 0);
    assert_eq!(fitness(0, 0, 0, 0, 9, 2000), 0);
}

#[test]
fn score_stays_in_range() {
    for f in 0..=25 {
        for sd in [0u64, 1000, 25_000, u64::MAX / 2] {
            let r = fitness(12, f, 2000, sd, 25, 2000);
            assert!(r <= ONE);
        }
    }
}
