use game_of_colors::color::{Color, CHANNEL_MAX, ONE};

fn within_unit_tolerance(value: i64, unit: i64) -> bool {
    10000 * (value - unit).abs() <= unit
}

#[test]
fn length_is_euclidean_norm_rounded_down() {
    assert_eq!(Color::new(3, 4, 0).length(), 5);
    assert_eq!(Color::new(1, 1, 1).length(), 1);
    assert_eq!(Color::new(-2, 0, 0).length(), 2);
    assert_eq!(Color::zero().length(), 0);
    assert_eq!(Color::new(ONE, ONE, ONE).length(), 113509);
}

#[test]
fn normalize_basis_color_is_exact() {
    assert_eq!(Color::new(3, 0, 0).normalize(), Color::new(ONE, 0, 0));
    assert_eq!(Color::new(0, -7, 0).normalize(), Color::new(0, -ONE, 0));
}

#[test]
fn normalize_zero_is_zero() {
    assert_eq!(Color::zero().normalize(), Color::zero());
}

#[test]
fn normalized_length_is_one_within_tolerance() {
    let samples = [
        Color::new(1, 1, 0),
        Color::new(ONE, ONE, ONE),
        Color::new(12345, 678, 9),
        Color::new(1, 2, 3),
        Color::new(-CHANNEL_MAX, 5, CHANNEL_MAX),
        Color::new(0, 0, 1),
    ];
    for c in samples.iter() {
        let n = c.normalize();
        assert!(within_unit_tolerance(n.length() as i64, ONE as i64), "{:?}", c);
    }
}

#[test]
fn normalized_self_dot_is_one_within_tolerance() {
    let samples = [Color::new(1, 1, 0), Color::new(ONE, ONE, ONE), Color::new(40000, 2, 65000)];
    for c in samples.iter() {
        let n = c.normalize();
        let unit = (ONE as i64) * (ONE as i64);
        assert!(within_unit_tolerance(n.dot(&n), unit), "{:?}", c);
    }
}

#[test]
fn orthogonal_basis_colors_have_zero_dot() {
    let red = Color::new(ONE, 0, 0);
    let blue = Color::new(0, 0, ONE);
    assert_eq!(red.normalize().dot(&blue.normalize()), 0);
}

#[test]
fn dot_is_channel_product_sum() {
    assert_eq!(Color::new(1, 2, 3).dot(&Color::new(4, -5, 6)), 12);
}

#[test]
fn clamp_limits_each_channel() {
    let c = Color::new(-5, 70000, 100).clamp(0, ONE);
    assert_eq!(c, Color::new(0, ONE, 100));
}

#[test]
fn threshold_keeps_long_colors_and_drops_short_ones() {
    let c = Color::new(3, 4, 0);
    assert_eq!(c.threshold(5), c);
    assert_eq!(c.threshold(6), Color::zero());
    assert_eq!(c.threshold(-1), c);
    assert_eq!(Color::zero().threshold(0), Color::zero());
}

#[test]
fn random_bits_map_to_fractions_of_one() {
    let c = Color::from_random_bits(0x0000_8000_FFFF_0000);
    assert_eq!(c, Color::new(0, 65534, 32767));
    let d = Color::from_random_bits(0x0001_0002_0003);
    assert_eq!(d, Color::new(2, 1, 0));
}

#[test]
fn random_color_channels_lie_in_unit_interval() {
    for _ in 0..100 {
        let c = Color::random();
        for v in [c.r, c.g, c.b].iter() {
            assert!(0 <= *v && *v < ONE);
        }
    }
}

#[test]
fn clamp_with_crossed_bounds_still_returns() {
    let c = Color::new(-5, 50, 200).clamp(100, 10);
    assert_eq!(c, Color::new(100, 100, 10));
}
