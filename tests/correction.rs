use angle::{turn_correction, TurnCorrection};
use std::cmp::Ordering;
use std::f64::consts::PI;

/// Normalises a float radian measure: truncating remainder by a full turn,
/// then the correction that the library picks.
fn normalized(v: f64) -> f64 {
    let full_turn = 2.0 * PI;
    let r = v % full_turn;
    match turn_correction(r.partial_cmp(&PI), r.partial_cmp(&-PI)) {
        TurnCorrection::SubtractTurn => r - full_turn,
        TurnCorrection::AddTurn => r + full_turn,
        TurnCorrection::Keep => r,
    }
}

fn separation(a: f64, b: f64) -> f64 {
    normalized(a - b).abs()
}

fn within_degrees(a: f64, b: f64, tolerance: f64) -> bool {
    separation(a, b) < normalized(tolerance.to_radians())
}

fn deg(v: f64) -> f64 {
    normalized(v.to_radians())
}

#[test]
fn above_half_turn_subtracts() {
    let c = turn_correction(Some(Ordering::Greater), Some(Ordering::Greater));
    assert_eq!(c, TurnCorrection::SubtractTurn);
}

#[test]
fn below_negative_half_turn_adds() {
    let c = turn_correction(Some(Ordering::Less), Some(Ordering::Less));
    assert_eq!(c, TurnCorrection::AddTurn);
}

#[test]
fn negative_half_turn_moves_up() {
    let c = turn_correction(Some(Ordering::Less), Some(Ordering::Equal));
    assert_eq!(c, TurnCorrection::AddTurn);
    assert_eq!(normalized(-PI), PI);
}

#[test]
fn half_turn_is_kept() {
    let c = turn_correction(Some(Ordering::Equal), Some(Ordering::Greater));
    assert_eq!(c, TurnCorrection::Keep);
    assert_eq!(normalized(PI), PI);
}

#[test]
fn inside_range_is_kept() {
    let c = turn_correction(Some(Ordering::Less), Some(Ordering::Greater));
    assert_eq!(c, TurnCorrection::Keep);
    assert_eq!(normalized(1.0), 1.0);
}

#[test]
fn incomparable_is_kept() {
    assert_eq!(turn_correction(None, None), TurnCorrection::Keep);
    assert!(normalized(f64::NAN).is_nan());
}

#[test]
fn normal_forms_lie_in_range() {
    let mut v = -40.0;
    while v <= 40.0 {
        let n = normalized(v);
        assert!(-PI < n && n <= PI, "{} gives {}", v, n);
        v += 0.37;
    }
    let n = normalized(3.0 * PI / 2.0);
    assert!((n + PI / 2.0).abs() < 1e-12);
    let n = normalized(-3.0 * PI / 2.0);
    assert!((n - PI / 2.0).abs() < 1e-12);
}

#[test]
fn whole_turns_do_not_matter() {
    assert!(within_degrees(deg(90.0), deg(90.0 + 360.0 * 7.0), 0.001));
    assert!(within_degrees(deg(90.0), deg(90.0 - 360.0 * 7.0), 0.001));
}

#[test]
fn sums_and_differences() {
    assert!(within_degrees(normalized(deg(90.0) + deg(5.0)), deg(95.0), 0.001));
    assert!(within_degrees(normalized(deg(90.0) - deg(5.0)), deg(85.0), 0.001));
}

#[test]
fn half_turn_chains() {
    let a = deg(90.0);
    let h = deg(180.0);
    let r = deg(-90.0);
    let s1 = normalized(a + h);
    let s2 = normalized(s1 + h);
    let s3 = normalized(s2 + h);
    assert!(within_degrees(s1, r, 0.001));
    assert!(within_degrees(s2, a, 0.001));
    assert!(within_degrees(s3, r, 0.001));
    let d1 = normalized(a - h);
    let d2 = normalized(d1 - h);
    let d3 = normalized(d2 - h);
    assert!(within_degrees(d1, r, 0.001));
    assert!(within_degrees(d2, a, 0.001));
    assert!(within_degrees(d3, r, 0.001));
}

#[test]
fn separation_takes_the_short_way() {
    assert!(within_degrees(deg(179.0), deg(-179.0), 2.5));
    assert!((separation(deg(179.0), deg(-179.0)).to_degrees() - 2.0).abs() < 1e-9);
    assert!(!within_degrees(deg(179.0), deg(-179.0), 1.5));
}

#[test]
fn zero_tolerance_never_holds() {
    assert!(!within_degrees(deg(90.0), deg(90.0), 0.0));
}
