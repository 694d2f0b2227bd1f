//! IEEE-754 binary64 values, carried as their 64-bit patterns.
//!
//! The inexact side of the number model stores a double-precision value as
//! the `u64` holding its bit pattern.  Classification (NaN, infinity, zero,
//! sign) is plain bit arithmetic and is defined here as spec functions that
//! the verified code mirrors directly.  The arithmetic itself is IEEE-754
//! double arithmetic, performed by the software implementation in the
//! `rustc_apfloat` crate; each operation sits behind one trusted wrapper
//! whose result is named by an uninterpreted spec function, since an
//! IEEE-754 operation is a pure function of the operand bit patterns.

use rustc_apfloat::ieee::Double;
use rustc_apfloat::Float;
use rustc_apfloat::Round;
use vstd::prelude::*;

verus! {

/// Sign bit of a binary64 pattern.
pub const SIGN_MASK: u64 = 0x8000_0000_0000_0000;

/// Exponent field of a binary64 pattern.
pub const EXP_MASK: u64 = 0x7FF0_0000_0000_0000;

/// Significand field of a binary64 pattern.
pub const FRAC_MASK: u64 = 0x000F_FFFF_FFFF_FFFF;

/// Bit pattern of positive infinity.
pub const INF_BITS: u64 = 0x7FF0_0000_0000_0000;

/// Bit pattern of `f64::EPSILON`, that is 2^-52.
pub const EPSILON_BITS: u64 = 0x3CB0_0000_0000_0000;

/// Bit pattern of `f64::MIN_POSITIVE`, the smallest positive normal, 2^-1022.
pub const MIN_POSITIVE_BITS: u64 = 0x0010_0000_0000_0000;

/// The pattern encodes NaN: exponent all ones, significand non-zero.
pub open spec fn is_nan_bits(b: u64) -> bool {
    b & EXP_MASK == EXP_MASK && b & FRAC_MASK != 0
}

/// The pattern encodes +inf or -inf.
pub open spec fn is_inf_bits(b: u64) -> bool {
    b & EXP_MASK == EXP_MASK && b & FRAC_MASK == 0
}

/// The pattern encodes a finite value (neither NaN nor an infinity).
pub open spec fn is_finite_bits(b: u64) -> bool {
    b & EXP_MASK != EXP_MASK
}

/// The pattern with the sign bit cleared: the absolute value.
pub open spec fn abs_bits(b: u64) -> u64 {
    b & !SIGN_MASK
}

/// The pattern with the sign bit flipped: IEEE-754 negation.
pub open spec fn neg_bits(b: u64) -> u64 {
    b ^ SIGN_MASK
}

/// The sign bit is set.
pub open spec fn sign_bits(b: u64) -> bool {
    b & SIGN_MASK != 0
}

/// Result pattern of IEEE-754 binary64 addition, round to nearest, ties to
/// even.
pub uninterp spec fn f64_add(a: u64, b: u64) -> u64;

/// Result pattern of IEEE-754 binary64 subtraction, round to nearest, ties
/// to even.
pub uninterp spec fn f64_sub(a: u64, b: u64) -> u64;

/// Result pattern of IEEE-754 binary64 multiplication, round to nearest,
/// ties to even.
pub uninterp spec fn f64_mul(a: u64, b: u64) -> u64;

/// Result pattern of IEEE-754 binary64 division, round to nearest, ties to
/// even.
pub uninterp spec fn f64_div(a: u64, b: u64) -> u64;

/// Pattern of the binary64 value nearest to the given integer.
pub uninterp spec fn f64_of_i64(i: i64) -> u64;

/// Pattern of the operand rounded to an integral value: to the nearest with
/// ties away from zero when `up` is false (as `f64::round` does), and toward
/// positive infinity when `up` is true (as `f64::ceil` does).
pub uninterp spec fn f64_round_int(a: u64, up: bool) -> u64;

/// The operand converted to `i64` with truncation, saturating at the type's
/// bounds, NaN taken to zero (the semantics of an `as i64` cast).
pub uninterp spec fn f64_to_i64(a: u64) -> i64;

/// Pattern of the binary64 value that the decimal literal denotes, correctly
/// rounded to nearest, or `None` when the text is not a valid literal.
pub uninterp spec fn f64_of_decimal(s: Seq<u8>) -> Option<u64>;

/// Decimal rendering of a finite non-zero binary64 value.
pub uninterp spec fn f64_decimal(b: u64) -> Seq<char>;

/// Relies on `rustc_apfloat`'s `Add` for `ieee::Double`: IEEE-754 binary64
/// addition of the two patterns, round to nearest, ties to even.
#[verifier::external_body]
pub(crate) fn add_bits(a: u64, b: u64) -> (r: u64)
    ensures
        r == f64_add(a, b),
{
    (Double::from_bits(a as u128) + Double::from_bits(b as u128)).value.to_bits() as u64
}

/// Relies on `rustc_apfloat`'s `Sub` for `ieee::Double`: IEEE-754 binary64
/// subtraction of the two patterns, round to nearest, ties to even.
#[verifier::external_body]
pub(crate) fn sub_bits(a: u64, b: u64) -> (r: u64)
    ensures
        r == f64_sub(a, b),
{
    (Double::from_bits(a as u128) - Double::from_bits(b as u128)).value.to_bits() as u64
}

/// Relies on `rustc_apfloat`'s `Mul` for `ieee::Double`: IEEE-754 binary64
/// multiplication of the two patterns, round to nearest, ties to even.
#[verifier::external_body]
pub(crate) fn mul_bits(a: u64, b: u64) -> (r: u64)
    ensures
        r == f64_mul(a, b),
{
    (Double::from_bits(a as u128) * Double::from_bits(b as u128)).value.to_bits() as u64
}

/// Relies on `rustc_apfloat`'s `Div` for `ieee::Double`: IEEE-754 binary64
/// division of the two patterns, round to nearest, ties to even.
#[verifier::external_body]
pub(crate) fn div_bits(a: u64, b: u64) -> (r: u64)
    ensures
        r == f64_div(a, b),
{
    (Double::from_bits(a as u128) / Double::from_bits(b as u128)).value.to_bits() as u64
}

/// Relies on `rustc_apfloat::Float::from_i128`: the binary64 value nearest
/// to the integer, as its bit pattern.
#[verifier::external_body]
pub(crate) fn of_i64_bits(i: i64) -> (r: u64)
    ensures
        r == f64_of_i64(i),
{
    Double::from_i128(i as i128).value.to_bits() as u64
}

/// Relies on `rustc_apfloat::Float::round_to_integral`: the operand rounded
/// to an integral value, toward positive infinity when `up` holds and to the
/// nearest integer with ties away from zero otherwise.  As IEEE-754
/// requires of roundToIntegral, the sign of the operand is preserved.
#[verifier::external_body]
pub(crate) fn round_int_bits(a: u64, up: bool) -> (r: u64)
    ensures
        r == f64_round_int(a, up),
        a & SIGN_MASK == 0 ==> r & SIGN_MASK == 0,
{
    let mode = if up { Round::TowardPositive } else { Round::NearestTiesToAway };
    Double::from_bits(a as u128).round_to_integral(mode).value.to_bits() as u64
}

/// Relies on `rustc_apfloat::Float::to_i128`: conversion to a 64-bit signed
/// integer, truncating toward zero, saturating at the bounds, NaN to zero.
/// A non-negative operand gives a non-negative integer.
#[verifier::external_body]
pub(crate) fn to_i64_bits(a: u64) -> (r: i64)
    ensures
        r == f64_to_i64(a),
        a & SIGN_MASK == 0 ==> r >= 0,
{
    Double::from_bits(a as u128).to_i128(64).value as i64
}

/// Relies on `rustc_apfloat`'s `FromStr` for `ieee::Double`: the binary64
/// value that the decimal text denotes, correctly rounded to nearest, or
/// `None` when the text is not a valid literal.
#[verifier::external_body]
pub(crate) fn of_decimal_bits(s: &[u8]) -> (r: Option<u64>)
    ensures
        r == f64_of_decimal(s@),
{
    match core::str::from_utf8(s) {
        Ok(t) => match t.parse::<Double>() {
            Ok(v) => Some(v.to_bits() as u64),
            Err(_) => None,
        },
        Err(_) => None,
    }
}

/// Relies on `rustc_apfloat`'s `Display` for `ieee::Double`: a decimal
/// rendering of the value, a function of the bit pattern alone.
#[verifier::external_body]
pub(crate) fn decimal_str_bits(b: u64) -> (r: String)
    ensures
        r@ == f64_decimal(b),
{
    format!("{}", Double::from_bits(b as u128))
}

/// Relies on `String::from_utf8`: bytes below 128 are valid UTF-8 and decode
/// to the characters with the same code points.
#[verifier::external_body]
pub(crate) fn string_from_ascii(v: Vec<u8>) -> (r: String)
    requires
        forall|i: int| 0 <= i < v@.len() ==> v@[i] < 128,
    ensures
        r@ == v@.map(|i: int, b: u8| b as char),
{
    match String::from_utf8(v) {
        Ok(s) => s,
        Err(_) => String::new(),
    }
}

} // verus!
