//! Greatest common divisors and the decimal-to-fraction search.

use vstd::arithmetic::div_mod::{
    lemma_fundamental_div_mod, lemma_fundamental_div_mod_converse, lemma_mod_multiples_basic,
    lemma_mod_self_0, lemma_small_mod,
};
use vstd::arithmetic::mul::lemma_mul_is_distributive_add;
use vstd::math::abs;
use vstd::prelude::*;

use crate::fbits;

verus! {

/// Greatest common divisor of two natural numbers, by the Euclidean
/// algorithm.  `gcd_nat(a, 0) == a`, and in particular `gcd_nat(0, 0) == 0`.
pub open spec fn gcd_nat(a: nat, b: nat) -> nat
    decreases b,
{
    if b == 0 {
        a
    } else {
        gcd_nat(b, a % b)
    }
}

/// What the signed `gcd` returns: the magnitude is the greatest common
/// divisor of the magnitudes, and the sign follows the second argument, so
/// that dividing a fraction's components by it leaves the denominator
/// non-negative.  `spec_gcd(x, 0) == x` and `spec_gcd(0, y) == y`.
pub open spec fn spec_gcd(x: int, y: int) -> int {
    if y == 0 {
        x
    } else if y > 0 {
        gcd_nat(abs(x), abs(y)) as int
    } else {
        -(gcd_nat(abs(x), abs(y)) as int)
    }
}

/// The signed gcd keeps each argument when the other is zero:
/// `gcd(x, 0) == x` and `gcd(0, y) == y`.
pub proof fn lemma_gcd_zero(x: int, y: int)
    ensures
        spec_gcd(x, 0) == x,
        spec_gcd(0, y) == y,
{
    if y != 0 {
        lemma_small_mod(0, abs(y));
        assert(gcd_nat(abs(0), abs(y)) == gcd_nat(abs(y), (0nat % abs(y))));
        assert(0nat % abs(y) == 0);
    }
}

/// The Euclidean gcd divides both arguments and is positive unless both are
/// zero.
pub proof fn lemma_gcd_nat_divides(a: nat, b: nat)
    ensures
        a != 0 || b != 0 ==> gcd_nat(a, b) >= 1,
        gcd_nat(a, b) != 0 ==> a as int % (gcd_nat(a, b) as int) == 0,
        gcd_nat(a, b) != 0 ==> b as int % (gcd_nat(a, b) as int) == 0,
    decreases b,
{
    let g = gcd_nat(a, b);
    if b == 0 {
        if a != 0 {
            lemma_mod_self_0(a as int);
            assert(b as int % (a as int) == 0) by {
                lemma_small_mod(0, a);
            }
        }
    } else {
        lemma_gcd_nat_divides(b, a % b);
        assert(g == gcd_nat(b, a % b));
        assert(g >= 1);
        // g divides b and a % b; a == (a / b) * b + a % b, so g divides a.
        lemma_fundamental_div_mod(a as int, b as int);
        let q = a as int / b as int;
        let r = (a % b) as int;
        assert(b as int % (g as int) == 0);
        assert(r % (g as int) == 0);
        let kb = b as int / g as int;
        let kr = r / g as int;
        lemma_fundamental_div_mod(b as int, g as int);
        lemma_fundamental_div_mod(r, g as int);
        assert(b as int == kb * g);
        assert(r == kr * g);
        assert(a as int == q * (kb * g) + kr * g);
        assert(q * (kb * g) == (q * kb) * g) by (nonlinear_arith);
        assert((q * kb) * g + kr * g == (q * kb + kr) * g) by {
            lemma_mul_is_distributive_add(g as int, q * kb, kr);
        }
        assert(a as int == (q * kb + kr) * g);
        lemma_mod_multiples_basic(q * kb + kr, g as int);
    }
}

/// Scaling both arguments scales the gcd: `gcd(m a, m b) == m gcd(a, b)`.
pub proof fn lemma_gcd_nat_scale(m: nat, a: nat, b: nat)
    ensures
        gcd_nat(m * a, m * b) == m * gcd_nat(a, b),
    decreases b,
{
    if m == 0 {
        assert(m * a == 0 && m * b == 0 && m * gcd_nat(a, b) == 0) by (nonlinear_arith)
            requires
                m == 0,
        ;
    } else if b == 0 {
        assert(m * b == 0) by (nonlinear_arith)
            requires
                b == 0,
        ;
    } else {
        assert(m * b != 0) by (nonlinear_arith)
            requires
                m != 0 && b != 0,
        ;
        // (m a) % (m b) == m (a % b), by uniqueness of division with remainder.
        lemma_fundamental_div_mod(a as int, b as int);
        let q = a as int / b as int;
        let r = (a % b) as int;
        assert(a as int == q * b + r);
        assert(m * a == q * (m * b) + m * r) by (nonlinear_arith)
            requires
                a as int == q * b + r,
        ;
        assert(0 <= m * r < m * b) by (nonlinear_arith)
            requires
                0 <= r < b,
                m >= 1,
        ;
        lemma_fundamental_div_mod_converse((m * a) as int, (m * b) as int, q, m * r);
        assert((m * a) % (m * b) == m * (a % b));
        lemma_gcd_nat_scale(m, b, a % b);
    }
}

/// After dividing two numbers, not both zero, by their gcd, the quotients
/// are coprime.
pub proof fn lemma_gcd_nat_coprime(a: nat, b: nat)
    requires
        a != 0 || b != 0,
    ensures
        gcd_nat(a, b) >= 1,
        a as int % (gcd_nat(a, b) as int) == 0,
        b as int % (gcd_nat(a, b) as int) == 0,
        gcd_nat((a as int / gcd_nat(a, b) as int) as nat, (b as int / gcd_nat(a, b) as int) as nat)
            == 1,
{
    lemma_gcd_nat_divides(a, b);
    let g = gcd_nat(a, b);
    lemma_fundamental_div_mod(a as int, g as int);
    lemma_fundamental_div_mod(b as int, g as int);
    let qa = a as int / g as int;
    let qb = b as int / g as int;
    assert(a as int == qa * g && b as int == qb * g);
    assert(qa >= 0 && qb >= 0) by (nonlinear_arith)
        requires
            qa * g == a && qb * g == b,
            g >= 1,
            a >= 0,
            b >= 0,
    ;
    assert(g * qa as nat == a && g * qb as nat == b) by (nonlinear_arith)
        requires
            qa * g == a && qb * g == b,
            qa >= 0 && qb >= 0,
    ;
    lemma_gcd_nat_scale(g, qa as nat, qb as nat);
    assert(g * gcd_nat(qa as nat, qb as nat) == g);
    assert(gcd_nat(qa as nat, qb as nat) == 1) by (nonlinear_arith)
        requires
            g * gcd_nat(qa as nat, qb as nat) == g,
            g >= 1,
    ;
}

/// A positive divisor is no larger than what it divides.
pub proof fn lemma_divisor_le(g: nat, x: nat)
    requires
        g >= 1,
        x >= 1,
        x as int % (g as int) == 0,
    ensures
        g <= x,
        g as int * (x as int / g as int) == x,
        x as int / g as int >= 1,
{
    lemma_fundamental_div_mod(x as int, g as int);
    let q = x as int / g as int;
    assert(x as int == g as int * q);
    assert(x as int == q * g) by (nonlinear_arith)
        requires
            x as int == g as int * q,
    ;
    assert(q >= 1) by (nonlinear_arith)
        requires
            q * g == x,
            g >= 1,
            x >= 1,
    ;
    assert(g <= x) by (nonlinear_arith)
        requires
            q * g == x,
            q >= 1,
            g >= 1,
    ;
    assert(g as int * q == x) by (nonlinear_arith)
        requires
            q * g == x,
    ;
}

/// Euclidean algorithm on unsigned 64-bit magnitudes.
pub(crate) fn gcd_u64(x: u64, y: u64) -> (r: u64)
    ensures
        r == gcd_nat(x as nat, y as nat),
{
    let mut a: u64 = x;
    let mut b: u64 = y;
    while b != 0
        invariant
            gcd_nat(a as nat, b as nat) == gcd_nat(x as nat, y as nat),
        decreases b,
    {
        let t: u64 = b;
        b = a % b;
        a = t;
    }
    a
}

/// The magnitude of a signed 64-bit value, as an unsigned one.
pub(crate) fn abs_i64(v: i64) -> (r: u64)
    ensures
        r == abs(v as int),
{
    if v >= 0 {
        v as u64
    } else if v == i64::MIN {
        0x8000_0000_0000_0000u64
    } else {
        (-v) as u64
    }
}

/// `gcd_nat(x, 1) == 1` for every `x`.
pub proof fn lemma_gcd_nat_one(x: nat)
    ensures
        gcd_nat(x, 1) == 1,
{
    lemma_fundamental_div_mod(x as int, 1);
    assert(x % 1 == 0);
    assert(gcd_nat(x, 1) == gcd_nat(1, 0));
}

/// Bound on every component kept by the mediant search: half of `i64::MAX`,
/// the overflow guard of the search.
pub const FAREY_GUARD: i64 = 0x3FFF_FFFF_FFFF_FFFF;

/// The state that the mediant search ends in, from the given bracket.  The
/// bracket `(a/b, c/d)` encloses the positive value whose pattern is `n`;
/// each step moves the bound on the side of the mediant `(a+c)/(b+d)` that
/// disagrees with `n`, until the mediant agrees within `f64::EPSILON` or a
/// component would pass the overflow guard, and the final mediant is the
/// result.  The comparisons are those of IEEE-754 doubles; on non-negative
/// finite patterns they coincide with unsigned order on the patterns.
pub open spec fn spec_farey(n: u64, a: i64, b: i64, c: i64, d: i64) -> (int, int)
    decreases 2 * FAREY_GUARD - b - d,
    when 1 <= b <= FAREY_GUARD && 1 <= d <= FAREY_GUARD && 0 <= a && 0 <= c
{
    if !(c < FAREY_GUARD && d < FAREY_GUARD && a + c <= FAREY_GUARD && b + d <= FAREY_GUARD) {
        (a + c, b + d)
    } else {
        let ac = fbits::f64_add(fbits::f64_of_i64(a), fbits::f64_of_i64(c));
        let bd = fbits::f64_add(fbits::f64_of_i64(b), fbits::f64_of_i64(d));
        let aux2 = fbits::f64_div(ac, bd);
        if fbits::abs_bits(fbits::f64_sub(n, aux2)) < fbits::EPSILON_BITS {
            (a + c, b + d)
        } else if n > aux2 {
            spec_farey(n, (a + c) as i64, (b + d) as i64, c, d)
        } else {
            spec_farey(n, a, b, (c + a) as i64, (d + b) as i64)
        }
    }
}

/// What `decimal_to_rational` returns for each bit pattern.
pub open spec fn spec_decimal_to_rational(bits: u64) -> Option<(i64, i64)> {
    if !fbits::is_finite_bits(bits) {
        None
    } else {
        let na = fbits::abs_bits(bits);
        let neg = fbits::sign_bits(bits) && na != 0;
        if na < fbits::MIN_POSITIVE_BITS {
            Some((0, 1))
        } else {
            let rb = fbits::f64_round_int(na, false);
            if fbits::abs_bits(fbits::f64_sub(na, rb)) < fbits::EPSILON_BITS {
                let v = fbits::f64_to_i64(rb);
                Some(
                    (
                        if neg {
                            (-v) as i64
                        } else {
                            v
                        },
                        1,
                    ),
                )
            } else {
                let c0 = fbits::f64_to_i64(fbits::f64_round_int(na, true));
                let c1: i64 = if c0 < 1 {
                    1
                } else if c0 > FAREY_GUARD {
                    FAREY_GUARD
                } else {
                    c0
                };
                let (p, q) = spec_farey(na, 0, 1, c1, 1);
                let g = gcd_nat(p as nat, q as nat) as int;
                Some(
                    (
                        (if neg {
                            -(p / g)
                        } else {
                            p / g
                        }) as i64,
                        (q / g) as i64,
                    ),
                )
            }
        }
    }
}

/// Converts a finite double, given as its bit pattern, to an exact fraction
/// in lowest terms with a positive denominator: `None` exactly on NaN and
/// the infinities, `(0, 1)` below `f64::MIN_POSITIVE` in magnitude, the
/// rounded integer over 1 when the value is within `f64::EPSILON` of an
/// integer, and otherwise the result of a Farey mediant search between the
/// brackets `0/1` and `ceil/1`.
pub fn decimal_to_rational(bits: u64) -> (r: Option<(i64, i64)>)
    ensures
        r == spec_decimal_to_rational(bits),
        r is Some <==> fbits::is_finite_bits(bits),
        r matches Some((p, q)) ==> 1 <= q && gcd_nat(abs(p as int), q as nat) == 1,
{
    if bits & fbits::EXP_MASK == fbits::EXP_MASK {
        return None;
    }
    let na = bits & !fbits::SIGN_MASK;
    let neg = (bits & fbits::SIGN_MASK != 0) && na != 0;
    if na < fbits::MIN_POSITIVE_BITS {
        proof {
            lemma_gcd_nat_one(0);
        }
        return Some((0, 1));
    }
    let rb = fbits::round_int_bits(na, false);
    proof {
        assert(na & fbits::SIGN_MASK == 0) by (bit_vector)
            requires
                na == bits & !fbits::SIGN_MASK,
        ;
    }
    if fbits::sub_bits(na, rb) & !fbits::SIGN_MASK < fbits::EPSILON_BITS {
        let v = fbits::to_i64_bits(rb);
        proof {
            lemma_gcd_nat_one(abs(v as int));
            lemma_gcd_nat_one(abs(-v as int));
        }
        if neg {
            return Some((-v, 1));
        } else {
            return Some((v, 1));
        }
    }
    let c0 = fbits::to_i64_bits(fbits::round_int_bits(na, true));
    let c1: i64 = if c0 < 1 {
        1
    } else if c0 > FAREY_GUARD {
        FAREY_GUARD
    } else {
        c0
    };
    let mut a: i64 = 0;
    let mut b: i64 = 1;
    let mut c: i64 = c1;
    let mut d: i64 = 1;
    let mut done: bool = false;
    while !done && c < FAREY_GUARD && d < FAREY_GUARD && (a as i128) + (c as i128)
        <= FAREY_GUARD as i128 && (b as i128) + (d as i128) <= FAREY_GUARD as i128
        invariant
            0 <= a <= FAREY_GUARD,
            1 <= b <= FAREY_GUARD,
            1 <= c <= FAREY_GUARD,
            1 <= d <= FAREY_GUARD,
            spec_farey(na, a, b, c, d) == spec_farey(na, 0, 1, c1, 1),
            done ==> spec_farey(na, a, b, c, d) == (a + c as int, b + d as int),
        decreases 2 * FAREY_GUARD - b - d + (if done {
            0int
        } else {
            1int
        }),
    {
        let ac = fbits::add_bits(fbits::of_i64_bits(a), fbits::of_i64_bits(c));
        let bd = fbits::add_bits(fbits::of_i64_bits(b), fbits::of_i64_bits(d));
        let aux2 = fbits::div_bits(ac, bd);
        if fbits::sub_bits(na, aux2) & !fbits::SIGN_MASK < fbits::EPSILON_BITS {
            done = true;
        } else if na > aux2 {
            a = a + c;
            b = b + d;
        } else {
            c = c + a;
            d = d + b;
        }
    }
    let p = a + c;
    let q = b + d;
    proof {
        assert(spec_farey(na, a, b, c, d) == (p as int, q as int));
        lemma_gcd_nat_coprime(p as nat, q as nat);
        lemma_divisor_le(gcd_nat(p as nat, q as nat), p as nat);
        lemma_divisor_le(gcd_nat(p as nat, q as nat), q as nat);
    }
    let g = gcd_u64(p as u64, q as u64);
    let pr = (p as u64) / g;
    let qr = (q as u64) / g;
    if neg {
        Some((-(pr as i64), qr as i64))
    } else {
        Some((pr as i64, qr as i64))
    }
}

/// Greatest common divisor of two signed values.  The magnitude of the
/// result is the gcd of the magnitudes; its sign follows `y` when `y` is not
/// zero, and is the sign of `x` otherwise, so `gcd(x, 0) == x` and
/// `gcd(0, y) == y`.
pub fn gcd(x: i64, y: i64) -> (r: i64)
    ensures
        r == spec_gcd(x as int, y as int),
{
    if y == 0 {
        return x;
    }
    let xm = abs_i64(x);
    let ym = abs_i64(y);
    let g = gcd_u64(xm, ym);
    proof {
        lemma_gcd_nat_divides(xm as nat, ym as nat);
        lemma_divisor_le(g as nat, ym as nat);
    }
    if y > 0 {
        g as i64
    } else if g >= 0x8000_0000_0000_0000u64 {
        i64::MIN
    } else {
        -(g as i64)
    }
}

} // verus!
