use base9_builder::angles::get_new_angles;
use base9_builder::arith::isqrt64;
use base9_builder::convert::{angle_from_offsets, cos_from_turn, sin_from_turn, SCALE, TURN};
use base9_builder::rng::{rng_between, rng_from_seed, shuffle_angles};

#[test]
fn even_coverage_with_no_existing_angles() {
    // With zero existing accents, the seven angles sit exactly a seventh
    // of the circle apart once sorted, within integer rounding.
    let mut rng = rng_from_seed(11);
    let angles: Vec<u32> = Vec::new();
    let mut new = get_new_angles(&mut rng, &angles);
    assert_eq!(new.len(), 7);
    new.sort();
    let step = (TURN / 7) as i64;
    for i in 0..7 {
        let a = new[i] as i64;
        let b = new[(i + 1) % 7] as i64;
        let gap = (b - a + TURN as i64) % TURN as i64;
        assert!((gap - step).abs() <= 2, "gap {} vs step {}", gap, step);
    }
}

#[test]
fn packing_with_one_existing_angle() {
    // A single existing angle's circular gap to itself is zero modulo a
    // full turn, so every new angle collapses onto it.
    let mut rng = rng_from_seed(3);
    let angles: Vec<u32> = vec![1234];
    let new = get_new_angles(&mut rng, &angles);
    assert_eq!(new.len(), 6);
    for a in new.iter() {
        assert_eq!(*a, 1234);
    }
}

#[test]
fn packing_respects_two_existing_angles() {
    // Two angles a quarter circle apart: the three-quarter gap gets more
    // new angles than the quarter gap.
    let q = TURN / 4;
    let mut rng = rng_from_seed(5);
    let angles: Vec<u32> = vec![0, q];
    let new = get_new_angles(&mut rng, &angles);
    assert_eq!(new.len(), 5);
    let in_small = new.iter().filter(|&&a| a > 0 && a < q).count();
    let in_large = new.iter().filter(|&&a| a > q).count();
    assert!(in_large > in_small, "large gap {} vs small gap {}", in_large, in_small);
}

#[test]
fn full_angle_set_leaves_nothing_to_place() {
    let mut rng = rng_from_seed(8);
    let angles: Vec<u32> = (0..7u32).map(|i| i * (TURN / 7)).collect();
    let new = get_new_angles(&mut rng, &angles);
    assert_eq!(new.len(), 0);
}

#[test]
fn angle_of_axes() {
    // The decomposition angle is atan2(da, db), in angle units of a full
    // circle starting at the +b axis.
    let east = angle_from_offsets(0, 1_000_000);
    assert!(east.min(TURN - east) <= 1_000);
    let north = angle_from_offsets(1_000_000, 0);
    assert!((north as i64 - (TURN / 4) as i64).abs() <= 1_000);
    let west = angle_from_offsets(0, -1_000_000);
    assert!((west as i64 - (TURN / 2) as i64).abs() <= 1_000);
    let south = angle_from_offsets(-1_000_000, 0);
    assert!((south as i64 - (3 * (TURN as i64) / 4)).abs() <= 1_000);
}

#[test]
fn sine_and_cosine_tables() {
    assert!((cos_from_turn(0) - SCALE).abs() < 1_000);
    assert!(cos_from_turn(TURN / 4).abs() < 1_000);
    assert!((cos_from_turn(TURN / 2) + SCALE).abs() < 1_000);
    assert!(sin_from_turn(0).abs() < 1_000);
    assert!((sin_from_turn(TURN / 4) - SCALE).abs() < 1_000);
}

#[test]
fn rng_draws_stay_in_range_and_shuffle_permutes() {
    let mut rng = rng_from_seed(21);
    for _ in 0..100 {
        let v = rng_between(&mut rng, -5, 17);
        assert!((-5..=17).contains(&v));
    }
    let mut v: Vec<u32> = (0..50).collect();
    shuffle_angles(&mut rng, &mut v);
    assert_eq!(v.len(), 50);
    let mut sorted = v.clone();
    sorted.sort();
    let expected: Vec<u32> = (0..50).collect();
    assert_eq!(sorted, expected);
}

#[test]
fn isqrt_is_exact_floor() {
    assert_eq!(isqrt64(0), 0);
    assert_eq!(isqrt64(1), 1);
    assert_eq!(isqrt64(3), 1);
    assert_eq!(isqrt64(4), 2);
    assert_eq!(isqrt64(99), 9);
    assert_eq!(isqrt64(100), 10);
    assert_eq!(isqrt64(u64::MAX), 0xffff_ffff);
}
