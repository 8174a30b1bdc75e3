use calx::text::{cull_lines, Align};
use calx::util::{clamp, noise_bits, Anchor};

#[test]
fn clamp_keeps_values_in_range() {
    assert_eq!(clamp(0, 10, 5), 5);
    assert_eq!(clamp(0, 10, -3), 0);
    assert_eq!(clamp(0, 10, 12), 10);
    assert_eq!(clamp(0, 10, 0), 0);
    assert_eq!(clamp(0, 10, 10), 10);
    assert_eq!(clamp(3u8, 3u8, 200u8), 3);
}

#[test]
fn clamp_on_floats() {
    assert_eq!(clamp(0.0f32, 1.0, 0.25), 0.25);
    assert_eq!(clamp(0.0f32, 1.0, -2.0), 0.0);
    assert_eq!(clamp(0.0f32, 1.0, 7.5), 1.0);
}

#[test]
fn clamp_with_crossed_bounds_prefers_the_lower() {
    // Below the lower bound wins over above the upper one.
    assert_eq!(clamp(10, 0, 5), 10);
    assert_eq!(clamp(10, 0, 20), 0);
}

#[test]
fn cull_keeps_the_last_lines() {
    let mut lines = vec!["a", "b", "c", "d"];
    cull_lines(&mut lines, Some(2));
    assert_eq!(lines, vec!["c", "d"]);
    let mut lines = vec![1, 2, 3];
    cull_lines(&mut lines, Some(3));
    assert_eq!(lines, vec![1, 2, 3]);
    let mut lines = vec![1, 2, 3];
    cull_lines(&mut lines, Some(5));
    assert_eq!(lines, vec![1, 2, 3]);
    let mut lines = vec![1, 2, 3];
    cull_lines(&mut lines, None);
    assert_eq!(lines, vec![1, 2, 3]);
    let mut lines = vec![1, 2, 3];
    cull_lines(&mut lines, Some(0));
    assert_eq!(lines, Vec::<i32>::new());
}

#[test]
fn enums_compare() {
    assert_eq!(Anchor::TopLeft, Anchor::TopLeft);
    assert_ne!(Anchor::TopLeft, Anchor::Center);
    assert_eq!(Align::Left, Align::Left);
    assert_ne!(Align::Right, Align::Center);
}

fn noise(n: i32) -> f32 {
    1.0 - noise_bits(n) as f32 / 1073741824.0
}

#[test]
fn test_noise() {
    for i in 0i32..100 {
        assert!(noise(i) >= -1.0 && noise(i) <= 1.0);
    }
}

#[test]
fn noise_bits_have_their_documented_values() {
    assert_eq!(noise_bits(0), 1376312589);
    assert_eq!(noise_bits(1), 1316808037);
    assert_eq!(noise_bits(2), 758455919);
    assert_eq!(noise_bits(-1), 107238581);
    assert_eq!(noise_bits(100), 160932161);
    assert_eq!(noise_bits(12345), 2032478005);
    assert_eq!(noise_bits(i32::MAX), 107238581);
    assert_eq!(noise_bits(i32::MIN), 1376312589);
}

#[test]
fn noise_bits_stay_within_thirty_one_bits() {
    let mut n: i32 = -7;
    for _ in 0..10000 {
        assert!(noise_bits(n) >= 0);
        assert_eq!(noise_bits(n), noise_bits(n));
        n = n.wrapping_mul(48271).wrapping_add(11);
    }
}
