use trusty_calculator::number::Number;
use trusty_calculator::parser::{parse, parse_float, parse_integer, parse_number, Expr, ParseError};

#[test]
fn test_fraction() {
    let ex = "2/6 * 21";
    let ast = parse(ex).unwrap();
    assert_eq!(
        Expr::Mul(
            Box::new(Expr::Div(
                Box::new(Expr::Number(Number::Fractional(2, 1))),
                Box::new(Expr::Number(Number::Fractional(6, 1)),)
            )),
            Box::new(Expr::Number(Number::Fractional(21, 1)))
        ),
        ast
    );
}

#[test]
fn test_parse_number() {
    assert_eq!(parse_integer("1"), Ok(("", 1)));
    assert!(parse_float("1").is_err());
    assert!(parse_integer("-1").is_err());
    assert_eq!(parse_integer("1 + 2"), Ok((" + 2", 1)));
    assert_eq!(parse_integer("12"), Ok(("", 12)));
    assert_eq!(parse_float("1.2"), Ok(("", (1.2f64).to_bits())));
    assert!(parse_float("-1.2").is_err());
    assert_eq!(parse_float("inf"), Ok(("", f64::INFINITY.to_bits())));
    assert!(parse_float("-inf").is_err());

    assert_eq!(parse_number("1"), Ok(("", Number::Fractional(1, 1))));
    assert!(parse_number("-1").is_err());
    assert_eq!(parse_number("1.2"), Ok(("", Number::Fractional(6, 5))));
}

#[test]
fn test_associativity_left_fold() {
    let ast = parse("1+2+3").unwrap();
    assert_eq!(
        Expr::Add(
            Box::new(Expr::Add(
                Box::new(Expr::Number(Number::Fractional(1, 1))),
                Box::new(Expr::Number(Number::Fractional(2, 1))),
            )),
            Box::new(Expr::Number(Number::Fractional(3, 1))),
        ),
        ast
    );
    let n = trusty_calculator::walk(&ast).unwrap();
    assert_eq!(n, Number::Fractional(6, 1));
}

#[test]
fn test_parse_errors() {
    assert_eq!(parse(""), Err(ParseError::SyntaxError));
    assert_eq!(parse("("), Err(ParseError::SyntaxError));
    assert_eq!(parse("1+"), Err(ParseError::IncompleteParse));
    assert_eq!(parse("2*"), Err(ParseError::IncompleteParse));
    assert_eq!(parse("1)"), Err(ParseError::IncompleteParse));
    assert_eq!(parse("@"), Err(ParseError::SyntaxError));
    assert_eq!(parse("(2+3"), Err(ParseError::SyntaxError));
    // Spaces are stripped before parsing, so `1 2` is the literal 12.
    let ast = parse("1 2").unwrap();
    assert_eq!(ast, Expr::Number(Number::Fractional(12, 1)));
}
