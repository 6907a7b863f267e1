use color_growth::ratio::bound_above;
use color_growth::ratio::bound_below;
use color_growth::ratio::SCALE;

fn as_float(bound: (u64, u128)) -> f64 {
    bound.0 as f64 / SCALE as f64 * 2.0f64.powi(bound.1 as i32)
}

#[test]
fn bounds_of_the_power_zero() {
    assert_eq!(bound_below(200, 100, 0), Some((SCALE, 0)));
    assert_eq!(bound_above(200, 100, 0), Some((SCALE, 0)));
}

#[test]
fn bound_below_of_a_power_of_two_is_exact() {
    assert_eq!(bound_below(2, 1, 1), Some((SCALE, 1)));
    assert_eq!(bound_below(2, 1, 10), Some((SCALE, 10)));
    assert_eq!(bound_below(128, 2, 5), Some((SCALE, 30)));
    assert_eq!(bound_below(7, 7, 1_000_000), Some((SCALE, 0)));
    assert_eq!(bound_below(4, 1, 1_000_000_000), Some((SCALE, 2_000_000_000)));
}

#[test]
fn bounds_enclose_small_powers() {
    for &(s, m) in &[(255u8, 254u8), (255, 1), (3, 2), (200, 77), (9, 9), (2, 1)] {
        for h in 0..40usize {
            let exact = (s as f64 / m as f64).powi(h as i32);
            let below = as_float(bound_below(s, m, h).unwrap());
            let above = as_float(bound_above(s, m, h).unwrap());
            assert!(below <= exact * (1.0 + 1e-12), "{} {} {}", s, m, h);
            assert!(above >= exact * (1.0 - 1e-12), "{} {} {}", s, m, h);
            assert!(below >= exact * (1.0 - 1e-9), "{} {} {}", s, m, h);
            assert!(above <= exact * (1.0 + 1e-9), "{} {} {}", s, m, h);
        }
    }
}

#[test]
fn bounds_of_a_huge_power_keep_the_exponent() {
    // (255 / 254)^h = 2^(h * 0.0056688...)
    let h = 1_000_000_000_000usize;
    let (_, below) = bound_below(255, 254, h).unwrap();
    let (_, above) = bound_above(255, 254, h).unwrap();
    assert!(below <= above);
    assert!(above - below <= 1);
    let expected = (h as f64 * (255.0f64 / 254.0).log2()) as u128;
    assert!(below <= expected + 1 && expected <= above + 1);
}

#[test]
fn bound_below_keeps_a_full_mantissa() {
    for h in 0..200usize {
        let (mant, _) = bound_below(255, 3, h).unwrap();
        assert!(mant >= SCALE);
    }
}
