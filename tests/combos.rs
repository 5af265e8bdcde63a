use farkle::combos::{binomial, chances, combinations, factorial, Fraction};
use farkle::dice::Die;

const DELTA: f64 = 0.0001;

fn approx(actual: f64, expected: f64) -> bool {
    expected - DELTA <= actual && actual <= expected + DELTA
}

fn value(f: Fraction) -> f64 {
    f.numerator as f64 / f.denominator as f64
}

fn one_in_six() -> Fraction {
    Fraction { numerator: 1, denominator: 6 }
}

#[test]
fn factorials() {
    assert_eq!(factorial(0), 1);
    assert_eq!(factorial(1), 1);
    assert_eq!(factorial(6), 720);
    assert_eq!(factorial(12), 479001600);
}

#[test]
fn factorial_largest() {
    assert_eq!(factorial(20), 2432902008176640000);
}

#[test]
fn choosing() {
    assert_eq!(combinations(12, 2), 66);
    assert_eq!(combinations(2, 2), 1);
    assert_eq!(combinations(6, 2), 15);
    assert_eq!(combinations(2, 1), 2);
}

#[test]
fn choosing_edges() {
    for n in 0..=20u64 {
        assert_eq!(combinations(n, n), 1);
        assert_eq!(combinations(n, 0), 1);
    }
    assert_eq!(combinations(20, 10), 184756);
}

#[test]
fn binomials() {
    let b = binomial(6, 2, one_in_six());
    assert_eq!(b, Fraction { numerator: 9375, denominator: 46656 });
    assert!(approx(value(b), 0.200_938_79));
}

#[test]
fn binomial_other_probability() {
    let b = binomial(4, 1, Fraction { numerator: 1, denominator: 2 });
    assert_eq!(b, Fraction { numerator: 4, denominator: 16 });
    let certain = binomial(3, 2, Fraction { numerator: 1, denominator: 1 });
    assert_eq!(certain, Fraction { numerator: 0, denominator: 1 });
}

#[test]
fn not_enough_dice() {
    let c = chances(&[Die::One, Die::Two, Die::Three], 2);
    assert_eq!(c.numerator, 0);
    assert!(approx(value(c), 0.0));
}

#[test]
fn single_die_single_roll() {
    let c = chances(&[Die::One], 1);
    assert_eq!(c, Fraction { numerator: 1, denominator: 6 });
    assert!(approx(value(c), 1.0 / 6.0));
}

#[test]
fn one_desired() {
    assert!(approx(value(chances(&[Die::One], 6)), 0.6651012));
}

#[test]
fn two_desired() {
    assert!(approx(value(chances(&[Die::One, Die::One], 6)), 0.263_224_45));
}

#[test]
fn two_dice() {
    let c = chances(&[Die::Three], 2);
    assert_eq!(c, Fraction { numerator: 11, denominator: 36 });
    assert!(approx(value(c), 0.305_555_55));
}

#[test]
fn nothing_desired_is_certain() {
    let c = chances(&[], 20);
    assert_eq!(c.numerator, c.denominator);
    assert_eq!(c.denominator, 3656158440062976);
}

#[test]
fn all_dice_desired() {
    assert_eq!(chances(&[Die::Six, Die::Six, Die::Six], 3), Fraction { numerator: 1, denominator: 216 });
}
