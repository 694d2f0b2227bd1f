//! An expression calculator with exact-when-possible arithmetic.
//!
//! A line of text is parsed into a binary-operator tree (`parser`), the tree
//! is folded to a single value (`walk`), and the value is either an exact
//! fraction of two 64-bit integers or an IEEE-754 double carried as its bit
//! pattern (`number`).

use vstd::prelude::*;

pub mod fbits;
pub mod number;
pub mod parser;
pub mod utils;

use number::{ArithError, Number};
use parser::Expr;

verus! {

/// The value of an expression tree: the fold of the number model's
/// operators over it, left child before right, or the first arithmetic
/// error met.
pub open spec fn spec_walk(e: Expr) -> Result<Number, ArithError>
    decreases e,
{
    match e {
        Expr::Number(n) => Ok(n),
        Expr::Add(l, r) => spec_walk_binop(spec_walk(*l), spec_walk(*r), parser::Oper::Add),
        Expr::Sub(l, r) => spec_walk_binop(spec_walk(*l), spec_walk(*r), parser::Oper::Sub),
        Expr::Mul(l, r) => spec_walk_binop(spec_walk(*l), spec_walk(*r), parser::Oper::Mul),
        Expr::Div(l, r) => spec_walk_binop(spec_walk(*l), spec_walk(*r), parser::Oper::Div),
    }
}

/// Combines the values of the two children of a binary node: the left
/// error, else the right error, else the operator applied to the values.
pub open spec fn spec_walk_binop(
    l: Result<Number, ArithError>,
    r: Result<Number, ArithError>,
    op: parser::Oper,
) -> Result<Number, ArithError> {
    match l {
        Err(e) => Err(e),
        Ok(a) => match r {
            Err(e) => Err(e),
            Ok(b) => match op {
                parser::Oper::Add => Number::spec_add(a, b),
                parser::Oper::Sub => Number::spec_sub(a, b),
                parser::Oper::Mul => Number::spec_mul(a, b),
                parser::Oper::Div => Number::spec_div(a, b),
            },
        },
    }
}

/// Round-trip exactness: for all 64-bit integers `a >= 0` and `b >= 1`
/// (the grammar has no sign, so only those reach the parser as `a/b`), the
/// text made of the digits of `a`, a slash, and the digits of `b` parses to
/// the division node `a/1 / b/1`, evaluates to the fraction `a/b`, and
/// reduces to the canonically reduced fraction: `a` and `b` divided by
/// their greatest common divisor, coprime, with a positive denominator.
pub proof fn lemma_round_trip(a: i64, b: i64)
    requires
        0 <= a,
        1 <= b,
    ensures
        ({
            let s = number::dec_digits(a as int) + seq![47u8] + number::dec_digits(b as int);
            let e = Expr::Div(
                Box::new(Expr::Number(Number::Fractional(a, 1))),
                Box::new(Expr::Number(Number::Fractional(b, 1))),
            );
            let g = utils::gcd_nat(a as nat, b as nat);
            &&& parser::spec_parse_expr(s, 0) == Some((e, s.len() as int))
            &&& spec_walk(e) == Ok::<Number, ArithError>(Number::Fractional(a, b))
            &&& Number::Fractional(a, b).reduce_ok()
            &&& Number::Fractional(a, b).spec_reduce() == Number::Fractional(
                (a as int / g as int) as i64,
                (b as int / g as int) as i64,
            )
            &&& 1 <= b as int / g as int
            &&& utils::gcd_nat(vstd::math::abs(a as int / g as int), (b as int / g as int) as nat)
                == 1
        }),
{
    let da = number::dec_digits(a as int);
    let db = number::dec_digits(b as int);
    number::lemma_dec_digits_len(a as int);
    number::lemma_dec_digits_len(b as int);
    let s = da + seq![47u8] + db;
    let fa = da.len() as int;
    let len = s.len() as int;
    assert(s.subrange(0, fa) =~= da);
    assert(s[fa] == 47);
    assert(s.subrange(fa + 1, len) =~= db);
    let na = Expr::Number(Number::Fractional(a, 1));
    let nb = Expr::Number(Number::Fractional(b, 1));
    let dv = Expr::Div(Box::new(na), Box::new(nb));
    // The digits of `a` read as the factor `a/1`, stopped by the slash.
    assert(!parser::is_float_byte(47));
    parser::lemma_number_at_digits(s, 0, a);
    assert(parser::spec_parse_factor(s, 0) == Some((na, fa)));
    // The digits of `b` read as the factor `b/1`, stopped by the end.
    parser::lemma_number_at_digits(s, fa + 1, b);
    assert(parser::spec_parse_factor(s, fa + 1) == Some((nb, len)));
    // The `/` chain folds the two factors into one division node.
    assert(parser::spec_term_chain(s, len, dv) == Some((dv, len)));
    assert(parser::spec_term_chain(s, fa, na) == Some((dv, len)));
    assert(parser::spec_parse_term(s, 0) == Some((dv, len)));
    // No `+` or `-` follows, so the expression is that term.
    assert(parser::spec_expr_chain(s, len, dv) == Some((dv, len)));
    assert(parser::spec_parse_expr(s, 0) == Some((dv, len)));
    // Evaluation: division by `b/1` multiplies by the reciprocal `1/b`.
    assert(spec_walk(na) == Ok::<Number, ArithError>(Number::Fractional(a, 1)));
    assert(spec_walk(nb) == Ok::<Number, ArithError>(Number::Fractional(b, 1)));
    assert(spec_walk(dv) == Number::Fractional(a, 1).spec_div(Number::Fractional(b, 1)));
    assert(Number::Fractional(a, 1).spec_div(Number::Fractional(b, 1)) == Ok::<
        Number,
        ArithError,
    >(Number::Fractional(a, b)));
    // Reduction: both components divided by the gcd, coprime afterwards.
    let g = utils::gcd_nat(a as nat, b as nat);
    utils::lemma_gcd_nat_coprime(a as nat, b as nat);
    utils::lemma_divisor_le(g, b as nat);
    assert(vstd::math::abs(a as int) == a && vstd::math::abs(b as int) == b);
    let qa = a as int / g as int;
    let qb = b as int / g as int;
    if a == 0 {
        vstd::arithmetic::div_mod::lemma_div_of0(g as int);
        assert(qa == 0);
    } else {
        utils::lemma_divisor_le(g, a as nat);
        assert(qa <= a) by (nonlinear_arith)
            requires
                g as int * qa == a,
                g >= 1,
                qa >= 1,
        ;
    }
    assert(qb <= b) by (nonlinear_arith)
        requires
            g as int * qb == b,
            g >= 1,
            qb >= 1,
    ;
    assert(Number::Fractional(a, b).reduce_ok());
    assert(vstd::math::abs(qa) == qa);
}

/// Evaluates an expression tree to a single number: a pure post-order fold,
/// left child before right.  Division by an exact zero fraction and 64-bit
/// overflow of the exact path are reported as errors; inexact operands
/// follow IEEE-754, so infinities and NaN flow through as values.
pub fn walk(ast: &Expr) -> (r: Result<Number, ArithError>)
    ensures
        r == spec_walk(*ast),
    decreases *ast,
{
    match ast {
        Expr::Number(num) => Ok(*num),
        Expr::Add(lhs, rhs) => match (walk(lhs), walk(rhs)) {
            (Ok(a), Ok(b)) => a.add(b),
            (Err(e), _) => Err(e),
            (_, Err(e)) => Err(e),
        },
        Expr::Sub(lhs, rhs) => match (walk(lhs), walk(rhs)) {
            (Ok(a), Ok(b)) => a.sub(b),
            (Err(e), _) => Err(e),
            (_, Err(e)) => Err(e),
        },
        Expr::Mul(lhs, rhs) => match (walk(lhs), walk(rhs)) {
            (Ok(a), Ok(b)) => a.mul(b),
            (Err(e), _) => Err(e),
            (_, Err(e)) => Err(e),
        },
        Expr::Div(lhs, rhs) => match (walk(lhs), walk(rhs)) {
            (Ok(a), Ok(b)) => a.div(b),
            (Err(e), _) => Err(e),
            (_, Err(e)) => Err(e),
        },
    }
}

} // verus!
