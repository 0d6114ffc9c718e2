//! Tests of the saturating fixed-point scalar arithmetic and the
//! fixed-point trigonometry.

use unicycle_mpc::fixed::clamp;
use unicycle_mpc::fixed::fx_add;
use unicycle_mpc::fixed::fx_cos;
use unicycle_mpc::fixed::fx_div;
use unicycle_mpc::fixed::fx_mul;
use unicycle_mpc::fixed::fx_neg;
use unicycle_mpc::fixed::fx_sin;
use unicycle_mpc::fixed::fx_sub;
use unicycle_mpc::fixed::sat_mul;
use unicycle_mpc::fixed::tdiv64;
use unicycle_mpc::fixed::FX_HALF_PI;
use unicycle_mpc::fixed::FX_ONE;
use unicycle_mpc::fixed::FX_PI;
use unicycle_mpc::fixed::FX_TWO_PI;

#[test]
fn add_and_sub_are_exact_in_range() {
    assert_eq!(fx_add(2_500_000, -1_000_000), 1_500_000);
    assert_eq!(fx_sub(2_500_000, 4_000_000), -1_500_000);
}

#[test]
fn add_saturates_at_the_ends() {
    assert_eq!(fx_add(i64::MAX, 1), i64::MAX);
    assert_eq!(fx_add(i64::MIN, -1), i64::MIN);
    assert_eq!(fx_sub(i64::MIN, 1), i64::MIN);
    assert_eq!(fx_sub(i64::MAX, -1), i64::MAX);
}

#[test]
fn mul_rescales_by_the_unit() {
    // 2.5 * 4.0 == 10.0
    assert_eq!(fx_mul(2_500_000, 4_000_000), 10_000_000);
    // 0.05 * 0.05 == 0.0025
    assert_eq!(fx_mul(50_000, 50_000), 2_500);
    assert_eq!(fx_mul(FX_ONE, 123_456), 123_456);
    assert_eq!(fx_mul(0, 987_654), 0);
}

#[test]
fn mul_truncates_toward_zero() {
    // -1.5 * 0.001 = -0.0015 -> -1500 exactly; -0.0000015 -> -1
    assert_eq!(fx_mul(-1_500_000, 1_000), -1_500);
    assert_eq!(fx_mul(-1_500, 1_000), -1);
    assert_eq!(fx_mul(1_500, 1_000), 1);
}

#[test]
fn mul_saturates_on_overflow() {
    assert_eq!(fx_mul(i64::MAX, 2_000_000), i64::MAX);
    assert_eq!(fx_mul(i64::MAX, -2_000_000), i64::MIN);
}

#[test]
fn div_truncates_toward_zero() {
    // 1.0 / 3.0
    assert_eq!(fx_div(1_000_000, 3_000_000), 333_333);
    assert_eq!(fx_div(-1_000_000, 3_000_000), -333_333);
    assert_eq!(fx_div(10_000_000, 2_000_000), 5_000_000);
}

#[test]
fn tdiv_counts_whole_steps() {
    assert_eq!(tdiv64(200_000, 50_000), 4);
    assert_eq!(tdiv64(199_999, 50_000), 3);
    assert_eq!(tdiv64(-200_001, 50_000), -4);
}

#[test]
fn sat_mul_scales_counts() {
    assert_eq!(sat_mul(3, 50_000), 150_000);
    assert_eq!(sat_mul(i64::MAX, 2), i64::MAX);
    assert_eq!(sat_mul(i64::MAX, -2), i64::MIN);
}

#[test]
fn neg_saturates_at_the_minimum() {
    assert_eq!(fx_neg(5), -5);
    assert_eq!(fx_neg(i64::MIN), i64::MAX);
}

#[test]
fn clamp_picks_the_nearest_bound() {
    assert_eq!(clamp(5, -3, 3), 3);
    assert_eq!(clamp(-5, -3, 3), -3);
    assert_eq!(clamp(2, -3, 3), 2);
}

#[test]
fn sine_and_cosine_at_zero_are_exact() {
    assert_eq!(fx_sin(0), 0);
    assert_eq!(fx_cos(0), FX_ONE);
}

#[test]
fn sine_matches_reference_values() {
    let tol = 250;
    assert!((fx_sin(FX_HALF_PI) - FX_ONE).abs() <= tol);
    assert!(fx_sin(FX_PI).abs() <= tol);
    assert!((fx_sin(FX_PI / 4) - 707_107).abs() <= tol);
    assert!((fx_sin(FX_PI / 6) - 500_000).abs() <= tol);
}

#[test]
fn cosine_matches_reference_values() {
    let tol = 250;
    assert!(fx_cos(FX_HALF_PI).abs() <= tol);
    assert!((fx_cos(FX_PI) + FX_ONE).abs() <= tol);
    assert!((fx_cos(FX_PI / 3) - 500_000).abs() <= tol);
}

#[test]
fn sine_is_odd_and_cosine_even() {
    for &a in &[123_456i64, 1_000_000, 2_500_000, 3_000_000] {
        assert_eq!(fx_sin(-a), -fx_sin(a));
        assert_eq!(fx_cos(-a), fx_cos(a));
    }
}

#[test]
fn trig_wraps_by_whole_turns() {
    for &a in &[0i64, 500_000, -1_200_000, 3_000_000] {
        assert_eq!(fx_sin(a + FX_TWO_PI), fx_sin(a));
        assert_eq!(fx_cos(a - FX_TWO_PI), fx_cos(a));
    }
}

#[test]
fn trig_stays_within_the_unit_interval() {
    let mut a: i64 = -7_000_000;
    while a <= 7_000_000 {
        assert!(fx_sin(a).abs() <= FX_ONE);
        assert!(fx_cos(a).abs() <= FX_ONE);
        a += 61_803;
    }
}
