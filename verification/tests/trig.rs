use softbody::fixed::SCALE;
use softbody::trig::{acos, cos, sin, HALF_PI, PI, TAU};

fn close(got: i64, want: f64, tolerance: i64) -> bool {
    let want_raw = (want * SCALE as f64).round() as i64;
    (got - want_raw).abs() <= tolerance
}

#[test]
fn sine_at_the_quarter_turns() {
    assert_eq!(sin(0), 0);
    assert!(close(sin(HALF_PI), 1.0, 10));
    assert!(close(sin(PI), 0.0, 10));
    assert!(close(sin(PI + HALF_PI), -1.0, 10));
    assert!(close(sin(-HALF_PI), -1.0, 10));
}

#[test]
fn no_turn_is_exact() {
    assert_eq!(sin(0), 0);
    assert_eq!(cos(0), SCALE);
}

#[test]
fn cosine_at_the_quarter_turns() {
    assert!(close(cos(0), 1.0, 10));
    assert!(close(cos(HALF_PI), 0.0, 10));
    assert!(close(cos(PI), -1.0, 10));
    assert!(close(cos(-PI), -1.0, 10));
}

#[test]
fn sine_follows_the_true_sine() {
    let mut a: i64 = -2 * TAU;
    while a <= 2 * TAU {
        let want = (a as f64 / SCALE as f64).sin();
        assert!(close(sin(a), want, 50), "sin({}) = {}", a, sin(a));
        let want_cos = (a as f64 / SCALE as f64).cos();
        assert!(close(cos(a), want_cos, 50), "cos({}) = {}", a, cos(a));
        a += 12_345;
    }
}

#[test]
fn arc_cosine_at_its_ends() {
    assert_eq!(acos(SCALE), 0);
    assert_eq!(acos(-SCALE), PI);
    assert!(close(acos(0), std::f64::consts::FRAC_PI_2, 100));
}

#[test]
fn arc_cosine_clamps_its_argument() {
    assert_eq!(acos(5 * SCALE), 0);
    assert_eq!(acos(-5 * SCALE), PI);
}

#[test]
fn arc_cosine_follows_the_true_arc_cosine() {
    let mut x: i64 = -SCALE;
    while x <= SCALE {
        let want = (x as f64 / SCALE as f64).acos();
        assert!(close(acos(x), want, 200), "acos({}) = {}", x, acos(x));
        x += 1_000;
    }
}
