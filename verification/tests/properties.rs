use trusty_calculator::number::{ArithError, Number};
use trusty_calculator::parser::parse;
use trusty_calculator::walk;

#[test]
fn test_precedence() {
    let n = walk(&parse("2+3*4").unwrap()).unwrap();
    assert_eq!(n, Number::Fractional(14, 1));
    assert_ne!(n, Number::Fractional(20, 1));
}

#[test]
fn test_parenthesization() {
    let n = walk(&parse("(2+3)*4").unwrap()).unwrap();
    assert_eq!(n, Number::Fractional(20, 1));
}

#[test]
fn test_exact_fraction_arithmetic() {
    let n = walk(&parse("1/2+2/3").unwrap()).unwrap();
    assert_eq!(n, Number::Fractional(7, 6));
}

#[test]
fn test_decimal_literal_stays_exact() {
    // A finite decimal literal converts to an exact fraction, so adding an
    // integer keeps the value exact: 6/5 + 1 is 11/5, numerically 2.2.
    let n = walk(&parse("1.2+1").unwrap()).unwrap();
    assert_eq!(n, Number::Fractional(11, 5));
    assert_eq!(11.0f64 / 5.0f64, 2.2f64);
}

#[test]
fn test_float_contagion() {
    // An inexact operand drags the whole operation to floating point.
    let n = walk(&parse("inf+1").unwrap()).unwrap();
    assert_eq!(n, Number::Rounded(f64::INFINITY.to_bits()));
    let n = walk(&parse("1-inf").unwrap()).unwrap();
    assert_eq!(n, Number::Rounded(f64::NEG_INFINITY.to_bits()));
    let n = walk(&parse("inf*inf").unwrap()).unwrap();
    assert_eq!(n, Number::Rounded(f64::INFINITY.to_bits()));
}

#[test]
fn test_ieee_propagation() {
    // inf/inf is NaN, a value, not an error.
    let n = walk(&parse("inf/inf").unwrap()).unwrap();
    match n {
        Number::Rounded(bits) => assert!(f64::from_bits(bits).is_nan()),
        Number::Fractional(_, _) => panic!("inf/inf must stay inexact"),
    }
    // Division by an inexact zero follows IEEE as well.
    let n = walk(&parse("1/(1/inf)").unwrap()).unwrap();
    match n {
        Number::Rounded(bits) => assert_eq!(f64::from_bits(bits), f64::INFINITY),
        Number::Fractional(_, _) => panic!("division by an inexact zero must stay inexact"),
    }
    // A fraction divided by infinity collapses to an exact-looking zero bit
    // pattern, still tagged inexact.
    let n = walk(&parse("1/inf").unwrap()).unwrap();
    assert_eq!(n, Number::Rounded((0.0f64).to_bits()));
}

#[test]
fn test_inexact_arithmetic_values() {
    // 1/inf is an inexact zero; adding and multiplying from there exercises
    // the IEEE paths with results distinct from either operand.
    let n = walk(&parse("(1/inf+2)+1/2").unwrap()).unwrap();
    assert_eq!(n, Number::Rounded((2.5f64).to_bits()));
    let n = walk(&parse("(1/inf+2)*(3/2)").unwrap()).unwrap();
    assert_eq!(n, Number::Rounded((3.0f64).to_bits()));
    let n = walk(&parse("(1/inf+3)/2").unwrap()).unwrap();
    assert_eq!(n, Number::Rounded((1.5f64).to_bits()));
}

#[test]
fn test_division_by_zero_error() {
    let e = walk(&parse("1/0").unwrap()).unwrap_err();
    assert_eq!(e, ArithError::DivisionByZero);
    let e = walk(&parse("5/(2-2)").unwrap()).unwrap_err();
    assert_eq!(e, ArithError::DivisionByZero);
}

#[test]
fn test_overflow_error() {
    let e = walk(&parse("9223372036854775807*2").unwrap()).unwrap_err();
    assert_eq!(e, ArithError::Overflow);
    // A literal too large for 64 bits is already a parse error.
    assert!(parse("9223372036854775808").is_err());
}

#[test]
fn test_format() {
    assert_eq!(Number::Fractional(7, 6).format(), "7/6");
    assert_eq!(Number::Fractional(2, 4).format(), "1/2");
    assert_eq!(Number::Fractional(4, 2).format(), "2");
    assert_eq!(Number::Fractional(-6, 3).format(), "-2");
    assert_eq!(Number::Fractional(3, -6).format(), "-1/2");
    assert_eq!(Number::Fractional(0, 5).format(), "0");
    assert_eq!(Number::Rounded(f64::INFINITY.to_bits()).format(), "inf");
    assert_eq!(Number::Rounded(f64::NEG_INFINITY.to_bits()).format(), "-inf");
    assert_eq!(Number::Rounded(f64::NAN.to_bits()).format(), "NaN");
    assert_eq!(Number::Rounded((0.0f64).to_bits()).format(), "0");
    assert_eq!(Number::Rounded((-0.0f64).to_bits()).format(), "-0");
    assert_eq!(Number::Fractional(0, 0).try_format(), None);
    assert!(Number::Fractional(1, 3).try_format().is_some());
}

#[test]
fn test_format_finite_rounded() {
    // A finite non-zero inexact value is rendered in decimal.
    let s = Number::Rounded((2.5f64).to_bits()).format();
    assert_eq!(s, "2.5");
}
