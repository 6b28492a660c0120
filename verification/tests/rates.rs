use procedural_towns::person::rates::{death_by_age_probability, logistic};
use procedural_towns::person::rates::{DEATH_SCALE, GROWTH_LIMIT, GROWTH_RATE, GROWTH_UNIT, SAFEST_AGE};

fn formula(age: u32) -> f64 {
    let distance = age as f64 - 26.0;
    1.0 - (-(distance * distance) * 1e-4).exp()
}

#[test]
fn rate_constants() {
    assert_eq!(GROWTH_UNIT, 1_000_000);
    assert_eq!(GROWTH_LIMIT, 10 * GROWTH_UNIT);
    assert_eq!(GROWTH_RATE as i64 * 10, GROWTH_UNIT);
    assert_eq!(DEATH_SCALE, 1 << 31);
    assert_eq!(SAFEST_AGE, 26);
}

#[test]
fn logistic_examples() {
    assert_eq!(logistic(10, 50, GROWTH_RATE), 800_000);
    assert_eq!(logistic(25, 50, GROWTH_RATE), 1_250_000);
    assert_eq!(logistic(50, 50, GROWTH_RATE), 0);
    assert_eq!(logistic(0, 50, GROWTH_RATE), 0);
    assert_eq!(logistic(60, 50, GROWTH_RATE), -1_200_000);
    assert_eq!(logistic(1, 3, GROWTH_RATE), 66_666);
    assert_eq!(logistic(4, 3, GROWTH_RATE), -133_333);
    assert_eq!(logistic(7, 1, 1), -42);
    assert_eq!(
        logistic(u32::MAX, 1, u32::MAX),
        -((u32::MAX as i128) * (u32::MAX as i128) * (u32::MAX as i128 - 1))
    );
}

#[test]
fn nobody_dies_of_age_at_26() {
    assert_eq!(death_by_age_probability(26), 0);
}

#[test]
fn death_chance_is_symmetric_around_26() {
    for k in 0..=26u32 {
        assert_eq!(death_by_age_probability(26 - k), death_by_age_probability(26 + k));
    }
}

#[test]
fn death_chance_rises_with_the_distance_from_26() {
    let mut last = 0;
    for age in 26..600u32 {
        let chance = death_by_age_probability(age);
        assert!(chance >= last);
        assert!(chance > last || age == 26 || age > 200);
        assert!(chance < DEATH_SCALE);
        last = chance;
    }
    for age in 600..5000u32 {
        let chance = death_by_age_probability(age);
        assert!(chance >= DEATH_SCALE - 1);
        assert!(chance <= DEATH_SCALE);
    }
    assert_eq!(death_by_age_probability(10_000), DEATH_SCALE);
    assert_eq!(death_by_age_probability(u32::MAX), DEATH_SCALE);
}

#[test]
fn death_chance_examples() {
    assert_eq!(death_by_age_probability(27), 214_737);
    assert_eq!(death_by_age_probability(0), 140_371_873);
    assert_eq!(death_by_age_probability(80), 543_168_830);
    assert_eq!(death_by_age_probability(126), 1_357_468_563);
}

#[test]
fn death_chance_follows_the_exponential_formula() {
    for age in 0..1000u32 {
        let chance = death_by_age_probability(age) as f64 / DEATH_SCALE as f64;
        assert!((chance - formula(age)).abs() < 1e-9);
    }
}
