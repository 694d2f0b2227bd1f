use trusty_calculator::number::Number;
use trusty_calculator::parser::parse;
use trusty_calculator::utils::{decimal_to_rational, gcd};
use trusty_calculator::walk;

fn to_f64(n: Number) -> f64 {
    match n {
        Number::Fractional(num, den) => num as f64 / den as f64,
        Number::Rounded(bits) => f64::from_bits(bits),
    }
}

#[test]
fn test_walk() {
    let n = walk(&parse("1+2").unwrap()).unwrap();
    assert_eq!(to_f64(n), 3f64);

    let n = walk(&parse("(1+2)/3").unwrap()).unwrap();
    assert_eq!(to_f64(n), 1f64);

    let n = walk(&parse("(3-0)/3").unwrap()).unwrap();
    assert_eq!(to_f64(n), 1f64);

    let n = walk(&parse("(5-2) / 3").unwrap()).unwrap();
    assert_eq!(to_f64(n), 1f64);

    let n = walk(&parse("inf/inf").unwrap()).unwrap();
    assert!(to_f64(n).is_nan());

    let n = walk(&parse("((1 + 1) * (1 + 1))").unwrap()).unwrap();
    assert_eq!(to_f64(n), 4f64);

    let n = walk(&parse("1 / 2 + 2 / 3").unwrap()).unwrap();
    assert_eq!(n, Number::Fractional(7, 6));
}

#[test]
fn test_decimal_to_rational() {
    assert_eq!(decimal_to_rational((0.5f64).to_bits()), Some((1, 2)));
    assert_eq!(decimal_to_rational((1.0f64).to_bits()), Some((1, 1)));
    assert_eq!(decimal_to_rational(f64::INFINITY.to_bits()), None);
    assert_eq!(decimal_to_rational(f64::NAN.to_bits()), None);
}

#[test]
fn test_decimal_to_rational_more() {
    assert_eq!(decimal_to_rational((1.2f64).to_bits()), Some((6, 5)));
    assert_eq!(decimal_to_rational((2.0f64).to_bits()), Some((2, 1)));
    assert_eq!(decimal_to_rational((-0.5f64).to_bits()), Some((-1, 2)));
    assert_eq!(decimal_to_rational((0.0f64).to_bits()), Some((0, 1)));
    assert_eq!(decimal_to_rational(f64::NEG_INFINITY.to_bits()), None);
}

#[test]
fn test_gcd() {
    assert_eq!(gcd(12, 8), 4);
    assert_eq!(gcd(7, 0), 7);
    assert_eq!(gcd(0, 9), 9);
    // The sign follows the second argument, so reduction leaves the
    // denominator non-negative.
    assert_eq!(gcd(-4, 6), 2);
    assert_eq!(gcd(4, -6), -2);
    assert_eq!(gcd(-3, 2), 1);
}

#[test]
fn test_reduce() {
    assert_eq!(Number::Fractional(2, 4).reduce(), Number::Fractional(1, 2));
    assert_eq!(Number::Fractional(4, 2).reduce(), Number::Fractional(2, 1));
    assert_eq!(Number::Fractional(-6, 3).reduce(), Number::Fractional(-2, 1));
    assert_eq!(Number::Fractional(3, -6).reduce(), Number::Fractional(-1, 2));
    assert_eq!(Number::Fractional(0, 5).reduce(), Number::Fractional(0, 1));
    let b = (1.5f64).to_bits();
    assert_eq!(Number::Rounded(b).reduce(), Number::Rounded(b));
    // Reducing a second time changes nothing.
    let once = Number::Fractional(36, -24).reduce();
    assert_eq!(once.reduce(), once);
    assert_eq!(once, Number::Fractional(-3, 2));
    // The one fraction outside reduce's domain is rejected by the checked form.
    assert_eq!(Number::Fractional(0, 0).reduce_checked(), None);
}

#[test]
fn test_round_trip() {
    // reduce(evaluate(parse("a/b"))) is the canonically reduced fraction.
    let n = walk(&parse("8/6").unwrap()).unwrap();
    assert_eq!(n, Number::Fractional(8, 6));
    // Fractions compare componentwise, not by value: reduction is opt-in.
    assert_ne!(n, Number::Fractional(4, 3));
    assert_eq!(n.reduce(), Number::Fractional(4, 3));
    let n = walk(&parse("21/7").unwrap()).unwrap();
    assert_eq!(n.reduce(), Number::Fractional(3, 1));
}
