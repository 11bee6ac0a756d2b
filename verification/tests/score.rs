use git_varro::score::Score;

fn score(x: f64) -> Score {
    Score { bits: x.to_bits() }
}

#[test]
fn scores_compare_as_doubles() {
    let values = [
        0.0,
        -0.0,
        1.0,
        -1.0,
        0.1234,
        0.12340000001,
        f64::MIN_POSITIVE,
        -f64::MIN_POSITIVE,
        5e-324,
        f64::MAX,
        f64::MIN,
        f64::INFINITY,
        f64::NEG_INFINITY,
        f64::NAN,
        -f64::NAN,
    ];
    for a in values {
        for b in values {
            assert_eq!(score(a).is_above(score(b)), a > b, "{} {}", a, b);
        }
    }
}

#[test]
fn zeros_are_equal() {
    assert!(!score(0.0).is_above(score(-0.0)));
    assert!(!score(-0.0).is_above(score(0.0)));
    assert!(score(0.5).is_above(score(0.25)));
}

#[test]
fn not_a_number_is_never_above() {
    assert!(!score(f64::NAN).is_above(score(1.0)));
    assert!(!score(1.0).is_above(score(f64::NAN)));
}
