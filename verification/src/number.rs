//! The hybrid number model: exact fractions of 64-bit integers, with an
//! explicit fall-back to IEEE-754 doubles carried as bit patterns.

use vstd::math::abs;
use vstd::prelude::*;
use vstd::string::StringExecFns;

use crate::fbits;
use crate::fbits::{f64_add, f64_div, f64_mul, f64_of_i64, neg_bits};
use crate::utils;
use crate::utils::{gcd_nat, lemma_divisor_le, lemma_gcd_nat_coprime, lemma_gcd_nat_divides};

verus! {

/// A numeric value: an exact fraction `Fractional(numerator, denominator)`,
/// not kept in reduced form between operations, or an inexact `Rounded`
/// value holding the bit pattern of an IEEE-754 double.
#[derive(Debug, PartialEq, Eq, Structural, Copy, Clone)]
pub enum Number {
    Fractional(i64, i64),
    Rounded(u64),
}

/// An arithmetic step that the exact path cannot perform: division by a
/// fraction equal to zero, or a component of a fraction falling outside the
/// 64-bit range.
#[derive(Debug, PartialEq, Eq, Structural, Copy, Clone)]
pub enum ArithError {
    DivisionByZero,
    Overflow,
}

impl ArithError {
    /// The failure as a short message for a caller that prints errors.
    pub fn message(&self) -> (r: &'static str)
        ensures
            r@ == if self is DivisionByZero {
                "division by zero"@
            } else {
                "arithmetic overflow"@
            },
    {
        match self {
            ArithError::DivisionByZero => "division by zero",
            ArithError::Overflow => "arithmetic overflow",
        }
    }
}

/// `x` fits in a 64-bit signed integer.
pub open spec fn in_i64(x: int) -> bool {
    i64::MIN <= x <= i64::MAX
}

/// The product of two 64-bit values fits comfortably in 128 bits.
proof fn lemma_prod_in_i128(x: int, y: int)
    requires
        in_i64(x),
        in_i64(y),
    ensures
        i128::MIN <= x * y <= i128::MAX,
{
    assert(-0x8000_0000_0000_0000 <= x <= 0x7FFF_FFFF_FFFF_FFFF && -0x8000_0000_0000_0000 <= y
        <= 0x7FFF_FFFF_FFFF_FFFF ==> -0x4000_0000_0000_0000_0000_0000_0000_0000 <= x * y
        <= 0x4000_0000_0000_0000_0000_0000_0000_0000) by (nonlinear_arith);
}

impl Number {
    /// The bit pattern of the double nearest to this value: the quotient of
    /// the converted components for a fraction, the stored pattern for a
    /// rounded value.
    pub open spec fn spec_to_bits(self) -> u64 {
        match self {
            Number::Fractional(n, d) => f64_div(f64_of_i64(n), f64_of_i64(d)),
            Number::Rounded(b) => b,
        }
    }

    /// What `add` returns.  Two fractions are added by cross-multiplication,
    /// `a/b + c/d == (ad + cb)/(db)`, and overflow of any 64-bit step is an
    /// error; otherwise both operands are taken to doubles and added.
    pub open spec fn spec_add(self, rhs: Number) -> Result<Number, ArithError> {
        match (self, rhs) {
            (Number::Fractional(n, d), Number::Fractional(rn, rd)) => {
                if in_i64(n * rd) && in_i64(rn * d) && in_i64(n * rd + rn * d) && in_i64(
                    rd * d,
                ) {
                    Ok(Number::Fractional((n * rd + rn * d) as i64, (rd * d) as i64))
                } else {
                    Err(ArithError::Overflow)
                }
            },
            _ => Ok(Number::Rounded(f64_add(self.spec_to_bits(), rhs.spec_to_bits()))),
        }
    }

    /// What `neg` returns on its admitted inputs: the numerator's sign is
    /// flipped for a fraction, the IEEE sign bit for a rounded value.
    pub open spec fn spec_neg(self) -> Number {
        match self {
            Number::Fractional(n, d) => Number::Fractional((-n) as i64, d),
            Number::Rounded(b) => Number::Rounded(neg_bits(b)),
        }
    }

    /// What `sub` returns: negate-then-add, with negation of an
    /// unrepresentable numerator reported as overflow.
    pub open spec fn spec_sub(self, rhs: Number) -> Result<Number, ArithError> {
        if rhs matches Number::Fractional(n, _) && n == i64::MIN {
            Err(ArithError::Overflow)
        } else {
            self.spec_add(rhs.spec_neg())
        }
    }

    /// What `mul` returns.  Two fractions multiply componentwise,
    /// `a/b * c/d == ac/bd`, and overflow of either 64-bit product is an
    /// error; otherwise both operands are taken to doubles and multiplied.
    pub open spec fn spec_mul(self, rhs: Number) -> Result<Number, ArithError> {
        match (self, rhs) {
            (Number::Fractional(a, b), Number::Fractional(c, d)) => {
                if in_i64(a * c) && in_i64(b * d) {
                    Ok(Number::Fractional((a * c) as i64, (b * d) as i64))
                } else {
                    Err(ArithError::Overflow)
                }
            },
            _ => Ok(Number::Rounded(f64_mul(self.spec_to_bits(), rhs.spec_to_bits()))),
        }
    }

    /// What `div` returns.  Division by a fraction is multiplication by its
    /// reciprocal, and a divisor fraction equal to zero is an error;
    /// division by a rounded value follows IEEE-754, so zero divisors
    /// produce infinities or NaN rather than errors.
    pub open spec fn spec_div(self, rhs: Number) -> Result<Number, ArithError> {
        match rhs {
            Number::Fractional(n, d) => {
                if n == 0 {
                    Err(ArithError::DivisionByZero)
                } else {
                    self.spec_mul(Number::Fractional(d, n))
                }
            },
            Number::Rounded(b) => Ok(
                Number::Rounded(f64_div(self.spec_to_bits(), b)),
            ),
        }
    }

    /// What `reduce` returns: a fraction's components divided by their
    /// greatest common divisor, the sign carried by the numerator and the
    /// denominator left non-negative; a rounded value unchanged.
    pub open spec fn spec_reduce(self) -> Number {
        match self {
            Number::Rounded(_) => self,
            Number::Fractional(n, d) => {
                if d == 0 {
                    Number::Fractional(1, 0)
                } else {
                    let g = gcd_nat(abs(n as int), abs(d as int));
                    let nm = abs(n as int) as int / g as int;
                    let dm = abs(d as int) as int / g as int;
                    Number::Fractional(
                        (if (n < 0) != (d < 0) {
                            -nm
                        } else {
                            nm
                        }) as i64,
                        dm as i64,
                    )
                }
            },
        }
    }

    /// The inputs on which `reduce` is defined: everything except the
    /// fraction `0/0`, whose components have no greatest common divisor,
    /// and the few fractions built from `i64::MIN` whose reduced numerator
    /// or denominator would not fit in 64 bits.
    pub open spec fn reduce_ok(self) -> bool {
        match self {
            Number::Rounded(_) => true,
            Number::Fractional(n, d) => {
                if d == 0 {
                    n != 0
                } else {
                    let g = gcd_nat(abs(n as int), abs(d as int));
                    let nm = abs(n as int) as int / g as int;
                    let dm = abs(d as int) as int / g as int;
                    dm <= i64::MAX && (if (n < 0) != (d < 0) {
                        nm <= 0x8000_0000_0000_0000
                    } else {
                        nm <= i64::MAX
                    })
                }
            },
        }
    }

    /// Reduction with its domain tested at run time: `None` exactly on the
    /// inputs `reduce` leaves out.
    pub fn reduce_checked(self) -> (r: Option<Number>)
        ensures
            r is Some <==> self.reduce_ok(),
            r matches Some(x) ==> x == self.spec_reduce(),
    {
        match self {
            Number::Rounded(_) => Some(self),
            Number::Fractional(n, d) => {
                if d == 0 {
                    if n == 0 {
                        return None;
                    }
                    return Some(Number::Fractional(1, 0));
                }
                let na = utils::abs_i64(n);
                let da = utils::abs_i64(d);
                let g = utils::gcd_u64(na, da);
                proof {
                    lemma_gcd_nat_divides(na as nat, da as nat);
                    lemma_divisor_le(g as nat, da as nat);
                    if na != 0 {
                        lemma_divisor_le(g as nat, na as nat);
                    } else {
                        vstd::arithmetic::div_mod::lemma_div_of0(g as int);
                    }
                }
                let nq = na / g;
                let dq = da / g;
                let neg = (n < 0) != (d < 0);
                if dq > i64::MAX as u64 {
                    return None;
                }
                let rn: i64 = if neg {
                    if nq > 0x8000_0000_0000_0000u64 {
                        return None;
                    } else if nq == 0x8000_0000_0000_0000u64 {
                        i64::MIN
                    } else {
                        -(nq as i64)
                    }
                } else {
                    if nq > i64::MAX as u64 {
                        return None;
                    }
                    nq as i64
                };
                Some(Number::Fractional(rn, dq as i64))
            },
        }
    }

    /// Reduces a fraction to lowest terms, the denominator's sign moved
    /// onto the numerator; does nothing on a rounded value.  Reduction is
    /// on demand, not an invariant: the arithmetic above never calls it.
    pub fn reduce(self) -> (r: Number)
        requires
            self.reduce_ok(),
        ensures
            r == self.spec_reduce(),
    {
        match self.reduce_checked() {
            Some(x) => x,
            None => {
                proof {
                    assert(false);
                }
                self
            },
        }
    }

    /// What `from_bits` returns: the exact fraction the conversion finds
    /// for a finite pattern, the pattern kept as a rounded value otherwise.
    pub open spec fn spec_from_bits(bits: u64) -> Number {
        match utils::spec_decimal_to_rational(bits) {
            Some((n, d)) => Number::Fractional(n, d),
            None => Number::Rounded(bits),
        }
    }

    /// Classifies a double, given as its bit pattern, as a number: finite
    /// patterns become exact fractions through the decimal-to-fraction
    /// search, NaN and the infinities stay inexact.
    pub fn from_bits(bits: u64) -> (r: Number)
        ensures
            r == Self::spec_from_bits(bits),
    {
        match utils::decimal_to_rational(bits) {
            Some((n, d)) => Number::Fractional(n, d),
            None => Number::Rounded(bits),
        }
    }

    /// What `format` returns: the reduced fraction as `n` or `n/d`; a
    /// rounded value as `NaN`, `inf`, `-inf`, `0`, `-0`, or its decimal
    /// rendering.
    pub open spec fn spec_format(self) -> Seq<char> {
        match self.spec_reduce() {
            Number::Fractional(n, d) => {
                if d == 1 {
                    ascii_chars(dec_i64(n as int))
                } else {
                    ascii_chars(dec_i64(n as int) + seq![47u8] + dec_i64(d as int))
                }
            },
            Number::Rounded(b) => {
                if fbits::is_nan_bits(b) {
                    seq!['N', 'a', 'N']
                } else if b == fbits::INF_BITS {
                    seq!['i', 'n', 'f']
                } else if b == fbits::INF_BITS | fbits::SIGN_MASK {
                    seq!['-', 'i', 'n', 'f']
                } else if b == 0 {
                    seq!['0']
                } else if b == fbits::SIGN_MASK {
                    seq!['-', '0']
                } else {
                    fbits::f64_decimal(b)
                }
            },
        }
    }

    /// Renders the number: a fraction is reduced first and shown as `n`
    /// when the denominator is one and as `n/d` otherwise; a rounded value
    /// keeps the IEEE tokens `NaN`, `inf` and `-inf`, and is shown in
    /// decimal otherwise.
    pub fn format(&self) -> (r: String)
        requires
            self.reduce_ok(),
        ensures
            r@ == self.spec_format(),
    {
        match self.reduce() {
            Number::Fractional(n, d) => {
                let mut out: Vec<u8> = Vec::new();
                push_dec_i64(n, &mut out);
                if d != 1 {
                    out.push(47);
                    push_dec_i64(d, &mut out);
                }
                proof {
                    lemma_dec_i64_ascii(n as int);
                    lemma_dec_i64_ascii(d as int);
                    if d == 1 {
                        assert(out@.map(|i: int, b: u8| b as char) =~= self.spec_format());
                    } else {
                        assert(out@ =~= dec_i64(n as int) + seq![47u8] + dec_i64(d as int));
                        assert(out@.map(|i: int, b: u8| b as char) =~= self.spec_format());
                    }
                }
                fbits::string_from_ascii(out)
            },
            Number::Rounded(b) => {
                if b & fbits::EXP_MASK == fbits::EXP_MASK && b & fbits::FRAC_MASK != 0 {
                    let r = String::from_str("NaN");
                    proof {
                        reveal_strlit("NaN");
                        assert(r@ =~= self.spec_format());
                    }
                    r
                } else if b == fbits::INF_BITS {
                    let r = String::from_str("inf");
                    proof {
                        reveal_strlit("inf");
                        assert(r@ =~= self.spec_format());
                    }
                    r
                } else if b == fbits::INF_BITS | fbits::SIGN_MASK {
                    let r = String::from_str("-inf");
                    proof {
                        reveal_strlit("-inf");
                        assert(r@ =~= self.spec_format());
                    }
                    r
                } else if b == 0 {
                    let r = String::from_str("0");
                    proof {
                        reveal_strlit("0");
                        assert(r@ =~= self.spec_format());
                    }
                    r
                } else if b == fbits::SIGN_MASK {
                    let r = String::from_str("-0");
                    proof {
                        reveal_strlit("-0");
                        assert(r@ =~= self.spec_format());
                    }
                    r
                } else {
                    fbits::decimal_str_bits(b)
                }
            },
        }
    }

    /// Rendering with its domain tested at run time: `None` exactly on the
    /// fractions that cannot be reduced.
    pub fn try_format(&self) -> (r: Option<String>)
        ensures
            r is Some <==> self.reduce_ok(),
            r matches Some(t) ==> t@ == self.spec_format(),
    {
        match self.reduce_checked() {
            Some(_) => Some(self.format()),
            None => None,
        }
    }

    /// The bit pattern of the double nearest to this value.
    pub fn to_bits(self) -> (r: u64)
        ensures
            r == self.spec_to_bits(),
    {
        match self {
            Number::Fractional(n, d) => fbits::div_bits(fbits::of_i64_bits(n), fbits::of_i64_bits(d)),
            Number::Rounded(b) => b,
        }
    }

    /// Adds two numbers: exactly when both are fractions, else in IEEE-754
    /// double arithmetic.
    pub fn add(self, rhs: Number) -> (r: Result<Number, ArithError>)
        ensures
            r == self.spec_add(rhs),
    {
        match (self, rhs) {
            (Number::Fractional(n, d), Number::Fractional(rn, rd)) => {
                proof {
                    lemma_prod_in_i128(n as int, rd as int);
                    lemma_prod_in_i128(rn as int, d as int);
                    lemma_prod_in_i128(rd as int, d as int);
                }
                let p1 = (n as i128) * (rd as i128);
                let p2 = (rn as i128) * (d as i128);
                let den = (rd as i128) * (d as i128);
                if p1 < i64::MIN as i128 || p1 > i64::MAX as i128 || p2 < i64::MIN as i128 || p2
                    > i64::MAX as i128 {
                    return Err(ArithError::Overflow);
                }
                let s = p1 + p2;
                if i64::MIN as i128 <= s && s <= i64::MAX as i128 && i64::MIN as i128 <= den && den
                    <= i64::MAX as i128 {
                    Ok(Number::Fractional(s as i64, den as i64))
                } else {
                    Err(ArithError::Overflow)
                }
            },
            _ => Ok(Number::Rounded(fbits::add_bits(self.to_bits(), rhs.to_bits()))),
        }
    }

    /// Negates a number.  The one numerator whose negation does not fit,
    /// `i64::MIN`, is left out; `sub` reports it as overflow instead.
    pub fn neg(self) -> (r: Number)
        requires
            !(self matches Number::Fractional(n, _) && n == i64::MIN),
        ensures
            r == self.spec_neg(),
    {
        match self {
            Number::Fractional(n, d) => Number::Fractional(-n, d),
            Number::Rounded(b) => Number::Rounded(b ^ fbits::SIGN_MASK),
        }
    }

    /// Subtracts by negating the right operand and adding.
    pub fn sub(self, rhs: Number) -> (r: Result<Number, ArithError>)
        ensures
            r == self.spec_sub(rhs),
    {
        match rhs {
            Number::Fractional(n, _) if n == i64::MIN => Err(ArithError::Overflow),
            _ => self.add(rhs.neg()),
        }
    }

    /// Multiplies two numbers: exactly when both are fractions, else in
    /// IEEE-754 double arithmetic.
    pub fn mul(self, rhs: Number) -> (r: Result<Number, ArithError>)
        ensures
            r == self.spec_mul(rhs),
    {
        match (self, rhs) {
            (Number::Fractional(a, b), Number::Fractional(c, d)) => {
                proof {
                    lemma_prod_in_i128(a as int, c as int);
                    lemma_prod_in_i128(b as int, d as int);
                }
                let pn = (a as i128) * (c as i128);
                let pd = (b as i128) * (d as i128);
                if i64::MIN as i128 <= pn && pn <= i64::MAX as i128 && i64::MIN as i128 <= pd
                    && pd <= i64::MAX as i128 {
                    Ok(Number::Fractional(pn as i64, pd as i64))
                } else {
                    Err(ArithError::Overflow)
                }
            },
            _ => Ok(Number::Rounded(fbits::mul_bits(self.to_bits(), rhs.to_bits()))),
        }
    }

    /// Divides two numbers.  A fraction divisor equal to zero is reported as
    /// an error before its reciprocal could be formed; a rounded divisor
    /// follows IEEE-754.
    pub fn div(self, rhs: Number) -> (r: Result<Number, ArithError>)
        ensures
            r == self.spec_div(rhs),
    {
        match rhs {
            Number::Fractional(n, d) => {
                if n == 0 {
                    Err(ArithError::DivisionByZero)
                } else {
                    self.mul(Number::Fractional(d, n))
                }
            },
            Number::Rounded(b) => Ok(Number::Rounded(fbits::div_bits(self.to_bits(), b))),
        }
    }
}

/// The decimal digits of a non-negative integer, most significant first, as
/// ASCII bytes, with no leading zeros (`0` itself is the single digit `0`).
pub open spec fn dec_digits(v: int) -> Seq<u8>
    decreases v,
    when v >= 0
{
    if v < 10 {
        seq![(48 + v) as u8]
    } else {
        dec_digits(v / 10).push((48 + v % 10) as u8)
    }
}

/// The decimal rendering of a signed integer: a leading `-` before the
/// digits of the magnitude when it is negative.
pub open spec fn dec_i64(n: int) -> Seq<u8> {
    if n < 0 {
        seq![45u8] + dec_digits(-n)
    } else {
        dec_digits(n)
    }
}

/// ASCII bytes read as the characters with the same code points.
pub open spec fn ascii_chars(s: Seq<u8>) -> Seq<char> {
    s.map(|i: int, b: u8| b as char)
}

/// Decimal digits are the ASCII bytes `'0'` through `'9'`.
pub proof fn lemma_dec_digits_ascii(v: int)
    requires
        v >= 0,
    ensures
        forall|i: int| 0 <= i < dec_digits(v).len() ==> 48 <= #[trigger] dec_digits(v)[i] <= 57,
    decreases v,
{
    if v < 10 {
        assert(dec_digits(v) =~= seq![(48 + v) as u8]);
    } else {
        lemma_dec_digits_ascii(v / 10);
        let pre = dec_digits(v / 10);
        let whole = dec_digits(v);
        assert(whole =~= pre.push((48 + v % 10) as u8));
        assert forall|i: int| 0 <= i < whole.len() implies 48 <= #[trigger] whole[i] <= 57 by {
            if i < pre.len() {
                assert(whole[i] == pre[i]);
            } else {
                assert(whole[i] == (48 + v % 10) as u8);
            }
        }
    }
}

/// A decimal rendering has at least one digit.
pub proof fn lemma_dec_digits_len(v: int)
    requires
        v >= 0,
    ensures
        dec_digits(v).len() >= 1,
    decreases v,
{
    if v >= 10 {
        lemma_dec_digits_len(v / 10);
    }
}

/// A signed decimal rendering holds only ASCII bytes: digits and `-`.
pub proof fn lemma_dec_i64_ascii(n: int)
    ensures
        forall|i: int| 0 <= i < dec_i64(n).len() ==> 45 <= #[trigger] dec_i64(n)[i] <= 57,
{
    if n < 0 {
        lemma_dec_digits_ascii(-n);
    } else {
        lemma_dec_digits_ascii(n);
    }
}

/// Appends the decimal digits of `v`, most significant first.
fn push_dec(v: u64, out: &mut Vec<u8>)
    ensures
        final(out)@ == old(out)@ + dec_digits(v as int),
    decreases v,
{
    if v < 10 {
        out.push(48 + v as u8);
        assert(out@ =~= old(out)@ + dec_digits(v as int));
    } else {
        push_dec(v / 10, out);
        out.push(48 + (v % 10) as u8);
        assert(out@ =~= old(out)@ + dec_digits(v as int));
    }
}

/// Appends the decimal rendering of a signed integer.
fn push_dec_i64(n: i64, out: &mut Vec<u8>)
    ensures
        final(out)@ == old(out)@ + dec_i64(n as int),
{
    if n < 0 {
        out.push(45);
        push_dec(utils::abs_i64(n), out);
        assert(out@ =~= old(out)@ + dec_i64(n as int));
    } else {
        push_dec(n as u64, out);
    }
}

/// Reduction does not change the value a fraction stands for, yields a
/// non-negative denominator, and leaves the components coprime.
pub proof fn lemma_reduce_canonical(x: Number)
    requires
        x.reduce_ok(),
        x matches Number::Fractional(n, d) && d != 0,
    ensures
        x.spec_reduce() matches Number::Fractional(n2, d2) && {
            &&& d2 >= 1
            &&& gcd_nat(abs(n2 as int), d2 as nat) == 1
            &&& n2 as int * (x->Fractional_1 as int) == (x->Fractional_0 as int) * d2 as int
        },
{
    let n = x->Fractional_0 as int;
    let d = x->Fractional_1 as int;
    let g = gcd_nat(abs(n), abs(d));
    lemma_gcd_nat_coprime(abs(n), abs(d));
    lemma_divisor_le(g, abs(d));
    let nm = abs(n) as int / g as int;
    let dm = abs(d) as int / g as int;
    assert(g * nm == abs(n) && nm >= 0) by {
        if abs(n) != 0 {
            lemma_divisor_le(g, abs(n));
        } else {
            vstd::arithmetic::div_mod::lemma_div_of0(g as int);
        }
    }
    assert(g * dm == abs(d) && dm >= 1);
    let n2 = x.spec_reduce()->Fractional_0 as int;
    let d2 = x.spec_reduce()->Fractional_1 as int;
    assert(d2 == dm && abs(n2) == nm && gcd_nat(abs(n2), d2 as nat) == 1);
    // Magnitudes of the cross products agree: nm * (g dm) == (g nm) * dm.
    assert(nm * abs(d) == abs(n) * dm) by (nonlinear_arith)
        requires
            g * nm == abs(n),
            g * dm == abs(d),
    ;
    // The signs agree as well, case by case on the signs of n and d.
    assert(n2 * d == n * d2) by (nonlinear_arith)
        requires
            nm * abs(d) == abs(n) * dm,
            dm == d2,
            n2 == if (n < 0) != (d < 0) {
                -nm
            } else {
                nm
            },
            abs(n) == if n >= 0 {
                n
            } else {
                -n
            },
            abs(d) == if d >= 0 {
                d
            } else {
                -d
            },
            nm >= 0,
            d != 0,
    ;
}

/// Reducing a fraction a second time changes nothing: reduction is
/// idempotent.
pub proof fn lemma_reduce_idempotent(x: Number)
    requires
        x.reduce_ok(),
    ensures
        x.spec_reduce().reduce_ok(),
        x.spec_reduce().spec_reduce() == x.spec_reduce(),
{
    match x {
        Number::Rounded(_) => {},
        Number::Fractional(n, d) => {
            let y = x.spec_reduce();
            if d == 0 {
                assert(y == Number::Fractional(1i64, 0i64));
                assert(y.spec_reduce() == y);
            } else {
                lemma_reduce_canonical(x);
                let n2 = y->Fractional_0;
                let d2 = y->Fractional_1;
                assert(d2 >= 1 && gcd_nat(abs(n2 as int), d2 as nat) == 1);
                vstd::arithmetic::div_mod::lemma_div_basics(abs(n2 as int) as int);
                vstd::arithmetic::div_mod::lemma_div_basics(abs(d2 as int) as int);
                assert(abs(d2 as int) == d2);
                assert(y.reduce_ok());
                assert((n2 < 0) != (d2 < 0) <==> n2 < 0);
                if n2 < 0 {
                    assert(y.spec_reduce()->Fractional_0 == (-(abs(n2 as int) as int)) as i64);
                    assert(-(abs(n2 as int) as int) == n2 as int);
                }
                assert(y.spec_reduce() == y);
            }
        },
    }
}

impl From<i64> for Number {
    /// An integer as the fraction with denominator one.
    fn from(v: i64) -> (r: Number) {
        Number::Fractional(v, 1)
    }
}

impl vstd::std_specs::convert::FromSpecImpl<i64> for Number {
    open spec fn obeys_from_spec() -> bool {
        true
    }

    open spec fn from_spec(v: i64) -> Number {
        Number::Fractional(v, 1)
    }
}

} // verus!
