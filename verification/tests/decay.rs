use color_growth::decay::decay;
use color_growth::decay::diffusion_range;
use color_growth::decay::DecayTable;

#[test]
fn range_at_one_halving_distance_is_130() {
    // (255 - 6) * 2^(-4/4) + 6 = 124.5 + 6, rounded down
    assert_eq!(diffusion_range(255, 6, 4, 4), 130);
}

#[test]
fn range_at_a_seed_is_max() {
    assert_eq!(diffusion_range(255, 6, 4, 0), 255);
    assert_eq!(diffusion_range(40, 40, 1, 0), 40);
    assert_eq!(diffusion_range(9, 0, 16, 0), 9);
}

#[test]
fn range_far_from_every_seed_is_long() {
    assert_eq!(diffusion_range(255, 6, 4, 32), 6);
    assert_eq!(diffusion_range(255, 6, 4, 1_000_000), 6);
    assert_eq!(diffusion_range(255, 6, 4, usize::MAX), 6);
    assert_eq!(diffusion_range(255, 0, 16, 128), 0);
}

#[test]
fn range_halves_with_every_halving_distance() {
    assert_eq!(diffusion_range(255, 6, 4, 8), 6 + 62);
    assert_eq!(diffusion_range(255, 6, 4, 12), 6 + 31);
    assert_eq!(diffusion_range(255, 6, 4, 28), 6 + 1);
    assert_eq!(diffusion_range(255, 6, 4, 31), 6 + 1);
    assert_eq!(diffusion_range(200, 0, 1, 1), 100);
    assert_eq!(diffusion_range(200, 0, 1, 3), 25);
    assert_eq!(diffusion_range(200, 0, 1, 7), 1);
    assert_eq!(diffusion_range(200, 0, 1, 8), 0);
}

#[test]
fn decay_between_halvings() {
    // 249 * 2^(-1/4) = 209.38..., 249 * 2^(-1/2) = 176.06..., 249 * 2^(-3/4) = 148.05...
    assert_eq!(decay(249, 4, 1), 209);
    assert_eq!(decay(249, 4, 2), 176);
    assert_eq!(decay(249, 4, 3), 148);
    // 100 * 2^(-1/2) = 70.71...
    assert_eq!(decay(100, 2, 1), 70);
    assert_eq!(decay(0, 3, 5), 0);
    assert_eq!(decay(1, 16, 1), 0);
    assert_eq!(decay(1, 16, 0), 1);
}

#[test]
fn decay_never_grows_with_the_distance() {
    for halving in 1..=20usize {
        let mut last = 255u8;
        for distance in 0..(8 * halving + 4) {
            let now = decay(255, halving, distance);
            assert!(now <= last);
            last = now;
        }
        assert_eq!(last, 0);
    }
}

#[test]
fn range_agrees_with_floating_point() {
    for halving in 1..=16usize {
        for &(max, long) in &[(255u8, 6u8), (255, 0), (200, 199), (17, 3), (128, 64), (1, 0)] {
            for distance in 0..(8 * halving + 4) {
                let f = (max - long) as f64 * 2.0f64.powf(-(distance as f64) / halving as f64)
                    + long as f64;
                assert_eq!(
                    diffusion_range(max, long, halving, distance) as i16,
                    f as i16,
                    "max {} long {} halving {} distance {}",
                    max,
                    long,
                    halving,
                    distance
                );
            }
        }
    }
}

#[test]
fn range_stays_between_long_and_max() {
    for distance in 0..200 {
        let r = diffusion_range(90, 30, 7, distance);
        assert!(30 <= r && r <= 90);
    }
}

#[test]
fn table_agrees_with_decay() {
    for &halving in &[1usize, 2, 3, 7, 16, 33] {
        for &span in &[0u8, 1, 2, 100, 249, 255] {
            let mut table = DecayTable::new(span, halving);
            for distance in 0..(8 * halving + 4) {
                assert_eq!(table.at(distance), decay(span, halving, distance));
            }
            assert_eq!(table.at(0), span);
            assert_eq!(table.at(usize::MAX), 0);
        }
    }
}

#[test]
fn long_halving_distances_agree_with_floating_point() {
    for &halving in &[17usize, 31, 64, 100, 250] {
        for &span in &[255u8, 249, 100, 3] {
            let mut table = DecayTable::new(span, halving);
            for distance in 0..(8 * halving + 4) {
                let f = span as f64 * 2.0f64.powf(-(distance as f64) / halving as f64);
                assert_eq!(
                    table.at(distance) as i16,
                    f as i16,
                    "span {} halving {} distance {}",
                    span,
                    halving,
                    distance
                );
            }
        }
    }
}

#[test]
fn decay_with_a_long_halving_distance() {
    // 255 * 2^(-1/1000) = 254.82...
    assert_eq!(decay(255, 1000, 1), 254);
    assert_eq!(decay(255, 1000, 0), 255);
    assert_eq!(decay(255, 1000, 1000), 127);
    assert_eq!(decay(255, 1000, 8000), 0);
    // 255 * 2^(-7) = 1.99..., 255 * 2^(-7.999) = 0.996...
    assert_eq!(decay(255, 1000, 7000), 1);
    assert_eq!(decay(255, 1000, 7999), 0);
}

#[test]
fn table_answers_whole_halvings_without_powers() {
    let mut table = DecayTable::new(255, usize::MAX);
    assert_eq!(table.at(0), 255);
    assert_eq!(table.at(usize::MAX), 127);
    let mut table = DecayTable::new(200, 1_000_000_000);
    assert_eq!(table.at(0), 200);
    assert_eq!(table.at(1_000_000_000), 100);
    assert_eq!(table.at(3_000_000_000), 25);
    assert_eq!(table.at(8_000_000_000), 0);
    assert_eq!(table.at(8_000_000_001), 0);
    let mut none = DecayTable::new(0, 1_000_000_000);
    assert_eq!(none.at(123_456), 0);
}

#[test]
fn table_gives_the_same_answer_twice() {
    let mut table = DecayTable::new(249, 4);
    for _ in 0..3 {
        assert_eq!(table.at(1), 209);
        assert_eq!(table.at(4), 124);
        assert_eq!(table.at(5), 104);
        assert_eq!(table.at(2), 176);
    }
}

#[test]
fn huge_halving_distances_are_answered() {
    // one step in 2^64 - 1 takes less than one off, and the result is rounded down
    let mut table = DecayTable::new(255, usize::MAX);
    assert_eq!(table.at(1), 254);
    assert_eq!(table.at(2), 254);
    assert_eq!(table.at(usize::MAX - 1), 127);
    // half a halving distance: 255 * 2^(-1/2) = 180.31..., 249 * 2^(-1/2) = 176.06...
    assert_eq!(decay(255, 2_000_000_000, 1_000_000_000), 180);
    assert_eq!(decay(249, 2_000_000_000, 1_000_000_000), 176);
    // a quarter: 255 * 2^(-1/4) = 214.42...
    assert_eq!(decay(255, 1_000_000_000, 250_000_000), 214);
    // one and a half: 255 * 2^(-3/2) = 90.15...
    assert_eq!(decay(255, 1_000_000_000, 1_500_000_000), 90);
    assert_eq!(decay(1, 1_000_000_000, 1), 0);
}

#[test]
fn a_million_steps_to_halve_agree_with_floating_point() {
    let halving = 1_000_000usize;
    let mut table = DecayTable::new(255, halving);
    let mut distance = 1usize;
    while distance < 8 * halving {
        let f = 255.0f64 * 2.0f64.powf(-(distance as f64) / halving as f64);
        assert_eq!(table.at(distance) as i16, f as i16, "distance {}", distance);
        assert_eq!(decay(255, halving, distance) as i16, f as i16);
        distance += 7919;
    }
}
