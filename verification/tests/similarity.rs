use vector_db::similarity::Similarity;

fn score(x: f64) -> Similarity {
    Similarity::from_bits(x.to_bits())
}

#[test]
fn one_round_trips_through_its_bits() {
    let one = score(1.0);
    assert_eq!(one.to_bits(), 1.0f64.to_bits());
    assert_eq!(f64::from_bits(one.to_bits()), 1.0);
}

#[test]
fn numbers_round_trip_through_their_bits() {
    for x in [0.0, 0.5, -0.5, 1.0, -1.0, 0.99, 1e-300, -1e300, f64::MAX, f64::MIN_POSITIVE] {
        assert_eq!(f64::from_bits(score(x).to_bits()), x);
    }
}

#[test]
fn a_nan_counts_as_zero() {
    assert_eq!(score(f64::NAN).to_bits(), 0);
    assert_eq!(score(-f64::NAN).to_bits(), 0);
    assert_eq!(Similarity::from_bits(0x7FF0_0000_0000_0001).to_bits(), 0);
    assert_eq!(Similarity::from_bits(0xFFFF_FFFF_FFFF_FFFF).to_bits(), 0);
    assert_eq!(score(f64::NAN), score(0.0));
}

#[test]
fn infinities_are_numbers() {
    assert_eq!(score(f64::INFINITY).to_bits(), f64::INFINITY.to_bits());
    assert_eq!(score(f64::NEG_INFINITY).to_bits(), f64::NEG_INFINITY.to_bits());
}

#[test]
fn both_zeros_are_one_score() {
    assert_eq!(score(-0.0), score(0.0));
    assert_eq!(score(-0.0).to_bits(), 0);
    assert!(score(-0.0).at_least(&score(0.0)));
    assert!(score(0.0).at_least(&score(-0.0)));
    assert!(!score(-0.0).below(&score(0.0)));
}

#[test]
fn scores_are_ordered_as_the_numbers_are() {
    let numbers = [
        f64::NEG_INFINITY,
        -1e300,
        -1.0,
        -0.5,
        -1e-300,
        0.0,
        1e-300,
        0.5,
        0.6,
        0.99,
        1.0,
        2.0,
        1e300,
        f64::INFINITY,
    ];
    for a in numbers {
        for b in numbers {
            assert_eq!(score(a).at_least(&score(b)), a >= b, "{} >= {}", a, b);
            assert_eq!(score(a).below(&score(b)), a < b, "{} < {}", a, b);
            assert_eq!(score(a) == score(b), a == b, "{} == {}", a, b);
        }
    }
}

#[test]
fn zero_and_one_are_the_numbers() {
    assert_eq!(Similarity::zero(), score(0.0));
    assert_eq!(Similarity::one(), score(1.0));
    assert_eq!(Similarity::one().to_bits(), 1.0f64.to_bits());
}

#[test]
fn scores_are_brought_into_the_unit_range() {
    for (x, expected) in [
        (0.0, 0.0),
        (0.25, 0.25),
        (-0.25, -0.25),
        (1.0, 1.0),
        (-1.0, -1.0),
        (1.0000000000000002, 1.0),
        (-1.0000000000000002, -1.0),
        (0.9999999999999999, 0.9999999999999999),
        (7.5, 1.0),
        (-7.5, -1.0),
        (f64::INFINITY, 1.0),
        (f64::NEG_INFINITY, -1.0),
        (f64::NAN, 0.0),
    ] {
        assert_eq!(score(x).within_unit(), score(expected), "{}", x);
    }
}
