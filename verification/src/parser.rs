//! The expression grammar and its recursive-descent parser.
//!
//! ```text
//! expr   := term  ( ('+' | '-') term )*
//! term   := factor ( ('*' | '/') factor )*
//! factor := number | '(' expr ')'
//! number := float | integer
//! ```
//!
//! Chains of operators of equal precedence fold to the left, so
//! `a + b + c` parses as `Add(Add(a, b), c)`.  Whitespace is trimmed from
//! the ends of the input and every interior space is removed before
//! parsing, so `1 2` reads as the single literal `12`.  The grammar is
//! deterministic, and its meaning is written down once, as the spec
//! functions below over the byte sequence being read; the executable parser
//! is proved to return exactly what they say.

use vstd::prelude::*;
use vstd::slice::slice_subrange;
use vstd::string::StringSliceAdditionalSpecFns;

use crate::fbits;
use crate::number::Number;

verus! {

/// An immutable binary-operator tree with numeric leaves.
#[derive(Debug, PartialEq)]
pub enum Expr {
    Add(Box<Expr>, Box<Expr>),
    Sub(Box<Expr>, Box<Expr>),
    Mul(Box<Expr>, Box<Expr>),
    Div(Box<Expr>, Box<Expr>),
    Number(Number),
}

/// A binary operator read from the input, before the node for it is built.
#[derive(Debug, PartialEq, Eq, Structural, Copy, Clone)]
pub enum Oper {
    Add,
    Sub,
    Mul,
    Div,
}

/// Why a parse failed: no expression could be read at all, or a valid
/// expression was followed by text that is not part of one.
#[derive(Debug, PartialEq, Eq, Structural, Copy, Clone)]
pub enum ParseError {
    SyntaxError,
    IncompleteParse,
}

impl ParseError {
    /// The failure as a short message for a caller that prints errors.
    pub fn message(&self) -> (r: &'static str)
        ensures
            r@ == if self is SyntaxError {
                "syntax error"@
            } else {
                "incomplete parse: input remains after a valid expression"@
            },
    {
        match self {
            ParseError::SyntaxError => "syntax error",
            ParseError::IncompleteParse => "incomplete parse: input remains after a valid expression",
        }
    }
}

/// An ASCII decimal digit.
pub open spec fn is_digit_byte(b: u8) -> bool {
    48 <= b <= 57
}

/// A byte the float scanner accepts: a digit, `.`, or one of the letters of
/// `inf`.
pub open spec fn is_float_byte(b: u8) -> bool {
    is_digit_byte(b) || b == 46 || b == 105 || b == 110 || b == 102
}

/// An ASCII whitespace byte: space, tab, line feed, vertical tab, form
/// feed, or carriage return.
pub open spec fn is_ws_byte(b: u8) -> bool {
    b == 32 || 9 <= b <= 13
}

/// Where the run of decimal digits starting at `i` ends.
pub open spec fn digit_run_end(s: Seq<u8>, i: int) -> int
    decreases s.len() - i,
    when 0 <= i <= s.len()
{
    if i < s.len() && is_digit_byte(s[i]) {
        digit_run_end(s, i + 1)
    } else {
        i
    }
}

/// Where the run of float-symbol bytes starting at `i` ends.
pub open spec fn float_run_end(s: Seq<u8>, i: int) -> int
    decreases s.len() - i,
    when 0 <= i <= s.len()
{
    if i < s.len() && is_float_byte(s[i]) {
        float_run_end(s, i + 1)
    } else {
        i
    }
}

/// Where the run of whitespace bytes starting at `i` ends.
pub open spec fn ws_run_end(s: Seq<u8>, i: int) -> int
    decreases s.len() - i,
    when 0 <= i <= s.len()
{
    if i < s.len() && is_ws_byte(s[i]) {
        ws_run_end(s, i + 1)
    } else {
        i
    }
}

/// Where the run of whitespace bytes ending at `j` starts.
pub open spec fn ws_back_start(s: Seq<u8>, j: int) -> int
    decreases j,
    when 0 <= j <= s.len()
{
    if j > 0 && is_ws_byte(s[j - 1]) {
        ws_back_start(s, j - 1)
    } else {
        j
    }
}

/// The sequence with every space byte removed.
pub open spec fn remove_spaces(s: Seq<u8>) -> Seq<u8>
    decreases s.len(),
{
    if s.len() == 0 {
        Seq::empty()
    } else if s.last() == 32 {
        remove_spaces(s.drop_last())
    } else {
        remove_spaces(s.drop_last()).push(s.last())
    }
}

/// What the parser actually reads: the input with whitespace trimmed from
/// both ends and every interior space removed.
pub open spec fn strip_spec(s: Seq<u8>) -> Seq<u8> {
    let lo = ws_run_end(s, 0);
    let back = ws_back_start(s, s.len() as int);
    let hi = if back < lo {
        lo
    } else {
        back
    };
    remove_spaces(s.subrange(lo, hi))
}

/// The value of a digit string, most significant digit first.
pub open spec fn digits_val(t: Seq<u8>) -> int
    decreases t.len(),
{
    if t.len() == 0 {
        0
    } else {
        digits_val(t.drop_last()) * 10 + (t.last() - 48)
    }
}

/// The run ends past its start only at digits, and at its end the run is
/// over.
pub proof fn lemma_digit_run(s: Seq<u8>, i: int)
    requires
        0 <= i <= s.len(),
    ensures
        i <= digit_run_end(s, i) <= s.len(),
        forall|k: int| i <= k < digit_run_end(s, i) ==> is_digit_byte(#[trigger] s[k]),
        digit_run_end(s, i) < s.len() ==> !is_digit_byte(s[digit_run_end(s, i)]),
    decreases s.len() - i,
{
    if i < s.len() && is_digit_byte(s[i]) {
        lemma_digit_run(s, i + 1);
    }
}

/// The float-symbol run, likewise.
pub proof fn lemma_float_run(s: Seq<u8>, i: int)
    requires
        0 <= i <= s.len(),
    ensures
        i <= float_run_end(s, i) <= s.len(),
        forall|k: int| i <= k < float_run_end(s, i) ==> is_float_byte(#[trigger] s[k]),
        float_run_end(s, i) < s.len() ==> !is_float_byte(s[float_run_end(s, i)]),
    decreases s.len() - i,
{
    if i < s.len() && is_float_byte(s[i]) {
        lemma_float_run(s, i + 1);
    }
}

/// A digit string has a non-negative value.
pub proof fn lemma_digits_val_nonneg(t: Seq<u8>)
    requires
        forall|k: int| 0 <= k < t.len() ==> is_digit_byte(#[trigger] t[k]),
    ensures
        digits_val(t) >= 0,
    decreases t.len(),
{
    if t.len() > 0 {
        lemma_digits_val_nonneg(t.drop_last());
        let v = digits_val(t.drop_last());
        assert(v * 10 >= 0) by (nonlinear_arith)
            requires
                v >= 0,
        ;
    }
}

/// The token has a dot somewhere.
pub open spec fn has_dot(t: Seq<u8>) -> bool {
    exists|j: int| 0 <= j < t.len() && t[j] == 46
}

/// The bytes of the literal `inf`.
pub open spec fn inf_token() -> Seq<u8> {
    seq![105u8, 110u8, 102u8]
}

/// A float literal read at `i`: the maximal run of float symbols,
/// accepted only when it has a dot or is exactly `inf`, and when the
/// decimal conversion accepts it; the value is the converted bit pattern.
pub open spec fn spec_parse_float_at(s: Seq<u8>, i: int) -> Option<(u64, int)> {
    let fe = float_run_end(s, i);
    let tok = s.subrange(i, fe);
    if (has_dot(tok) || tok == inf_token()) && fbits::f64_of_decimal(tok) is Some {
        Some((fbits::f64_of_decimal(tok)->Some_0, fe))
    } else {
        None
    }
}

/// An integer literal read at `i`: the maximal run of digits, non-empty
/// and no larger than `i64::MAX`.
pub open spec fn spec_parse_int_at(s: Seq<u8>, i: int) -> Option<(i64, int)> {
    let de = digit_run_end(s, i);
    let v = digits_val(s.subrange(i, de));
    if de > i && v <= i64::MAX {
        Some((v as i64, de))
    } else {
        None
    }
}

/// A numeric literal read at `i`: a float literal if one is accepted here,
/// else an integer literal.  A finite float becomes an exact fraction; only
/// `inf` stays inexact.
pub open spec fn spec_parse_number(s: Seq<u8>, i: int) -> Option<(Number, int)> {
    match spec_parse_float_at(s, i) {
        Some((bits, j)) => Some((Number::spec_from_bits(bits), j)),
        None => match spec_parse_int_at(s, i) {
            Some((v, j)) => Some((Number::Fractional(v, 1), j)),
            None => None,
        },
    }
}

/// A factor read at `i`: a parenthesized expression when an opening
/// parenthesis stands here (a numeric literal never starts with one), else
/// a numeric literal.
pub open spec fn spec_parse_factor(s: Seq<u8>, i: int) -> Option<(Expr, int)>
    decreases s.len() - i, 1int,
    when 0 <= i <= s.len()
{
    if i < s.len() && s[i] == 40 {
        match spec_parse_expr(s, i + 1) {
            Some((e, j)) => {
                if j < s.len() && s[j] == 41 {
                    Some((e, j + 1))
                } else {
                    None
                }
            },
            None => None,
        }
    } else {
        match spec_parse_number(s, i) {
            Some((n, j)) => Some((Expr::Number(n), j)),
            None => None,
        }
    }
}

/// The rest of a factor chain: as long as `*` or `/` stands at `i` and a
/// factor follows it, the factor is folded onto `acc` from the left; when
/// no factor follows the operator, the chain stops before the operator.
pub open spec fn spec_term_chain(s: Seq<u8>, i: int, acc: Expr) -> Option<(Expr, int)>
    decreases s.len() - i, 0int,
    when 0 <= i <= s.len()
{
    if i < s.len() && (s[i] == 42 || s[i] == 47) {
        match spec_parse_factor(s, i + 1) {
            Some((f, j)) => {
                if i + 1 < j && j <= s.len() {
                    spec_term_chain(
                        s,
                        j,
                        if s[i] == 42 {
                            Expr::Mul(Box::new(acc), Box::new(f))
                        } else {
                            Expr::Div(Box::new(acc), Box::new(f))
                        },
                    )
                } else {
                    None
                }
            },
            None => Some((acc, i)),
        }
    } else {
        Some((acc, i))
    }
}

/// A term read at `i`: a factor followed by its `*` and `/` chain.
pub open spec fn spec_parse_term(s: Seq<u8>, i: int) -> Option<(Expr, int)>
    decreases s.len() - i, 2int,
    when 0 <= i <= s.len()
{
    match spec_parse_factor(s, i) {
        Some((f, j)) => {
            if i < j && j <= s.len() {
                spec_term_chain(s, j, f)
            } else {
                None
            }
        },
        None => None,
    }
}

/// The rest of a term chain: as long as `+` or `-` stands at `i` and a
/// term follows it, the term is folded onto `acc` from the left.
pub open spec fn spec_expr_chain(s: Seq<u8>, i: int, acc: Expr) -> Option<(Expr, int)>
    decreases s.len() - i, 0int,
    when 0 <= i <= s.len()
{
    if i < s.len() && (s[i] == 43 || s[i] == 45) {
        match spec_parse_term(s, i + 1) {
            Some((t, j)) => {
                if i + 1 < j && j <= s.len() {
                    spec_expr_chain(
                        s,
                        j,
                        if s[i] == 43 {
                            Expr::Add(Box::new(acc), Box::new(t))
                        } else {
                            Expr::Sub(Box::new(acc), Box::new(t))
                        },
                    )
                } else {
                    None
                }
            },
            None => Some((acc, i)),
        }
    } else {
        Some((acc, i))
    }
}

/// An expression read at `i`: a term followed by its `+` and `-` chain.
pub open spec fn spec_parse_expr(s: Seq<u8>, i: int) -> Option<(Expr, int)>
    decreases s.len() - i, 3int,
    when 0 <= i <= s.len()
{
    match spec_parse_term(s, i) {
        Some((t, j)) => {
            if i < j && j <= s.len() {
                spec_expr_chain(s, j, t)
            } else {
                None
            }
        },
        None => None,
    }
}

/// Scans to the end of the float-symbol run starting at `i`.
fn scan_float_end(s: &[u8], i: usize) -> (r: usize)
    requires
        i <= s@.len(),
    ensures
        r == float_run_end(s@, i as int),
        i <= r <= s@.len(),
{
    let mut j = i;
    while j < s.len() && (48 <= s[j] && s[j] <= 57 || s[j] == 46 || s[j] == 105 || s[j] == 110
        || s[j] == 102)
        invariant
            i <= j <= s@.len(),
            float_run_end(s@, i as int) == float_run_end(s@, j as int),
        decreases s@.len() - j,
    {
        j = j + 1;
    }
    j
}

/// Scans to the end of the digit run starting at `i`.
fn scan_digit_end(s: &[u8], i: usize) -> (r: usize)
    requires
        i <= s@.len(),
    ensures
        r == digit_run_end(s@, i as int),
        i <= r <= s@.len(),
{
    let mut j = i;
    while j < s.len() && 48 <= s[j] && s[j] <= 57
        invariant
            i <= j <= s@.len(),
            digit_run_end(s@, i as int) == digit_run_end(s@, j as int),
        decreases s@.len() - j,
    {
        j = j + 1;
    }
    j
}

/// Reads the value of the digit run `[i, de)`: `None` when it exceeds
/// `i64::MAX`, as for a literal too large for the integer type.
fn int_value(s: &[u8], i: usize, de: usize) -> (r: Option<i64>)
    requires
        i <= de <= s@.len(),
        de == digit_run_end(s@, i as int),
    ensures
        match r {
            Some(v) => digits_val(s@.subrange(i as int, de as int)) == v,
            None => digits_val(s@.subrange(i as int, de as int)) > i64::MAX,
        },
{
    proof {
        lemma_digit_run(s@, i as int);
    }
    let mut val: u64 = 0;
    let mut ovf: bool = false;
    let mut k = i;
    while k < de
        invariant
            i <= k <= de <= s@.len(),
            de == digit_run_end(s@, i as int),
            forall|m: int| i <= m < de ==> is_digit_byte(#[trigger] s@[m]),
            !ovf ==> val == digits_val(s@.subrange(i as int, k as int)) && val <= i64::MAX as u64,
            ovf ==> digits_val(s@.subrange(i as int, k as int)) > i64::MAX,
        decreases de - k,
    {
        let dg = (s[k] - 48) as u64;
        let ghost pre = s@.subrange(i as int, k as int);
        let ghost cur = s@.subrange(i as int, k as int + 1);
        proof {
            assert(cur =~= pre.push(s@[k as int]));
            assert(cur.drop_last() =~= pre);
            assert(cur.last() == s@[k as int]);
            assert(is_digit_byte(s@[k as int]));
            assert(dg == s@[k as int] - 48);
            assert(digits_val(cur) == digits_val(pre) * 10 + dg);
            lemma_digits_val_nonneg(pre);
        }
        if !ovf {
            if val > (i64::MAX as u64 - dg) / 10 {
                ovf = true;
                proof {
                    let q = (i64::MAX - dg) / 10;
                    vstd::arithmetic::div_mod::lemma_fundamental_div_mod(i64::MAX - dg, 10);
                    assert(val as int * 10 >= (q + 1) * 10) by (nonlinear_arith)
                        requires
                            val as int >= q + 1,
                    ;
                    assert(digits_val(cur) > i64::MAX);
                }
            } else {
                proof {
                    let q = (i64::MAX - dg) / 10;
                    vstd::arithmetic::div_mod::lemma_fundamental_div_mod(i64::MAX - dg, 10);
                    assert(val as int * 10 <= q * 10) by (nonlinear_arith)
                        requires
                            val as int <= q,
                    ;
                }
                val = val * 10 + dg;
            }
        } else {
            proof {
                let v = digits_val(pre);
                assert(v * 10 + dg > i64::MAX) by (nonlinear_arith)
                    requires
                        v > i64::MAX,
                        dg >= 0,
                ;
            }
        }
        k = k + 1;
    }
    if ovf {
        None
    } else {
        Some(val as i64)
    }
}

/// Reads a float literal at `i`, as the grammar's `float` production.
fn float_at(s: &[u8], i: usize) -> (r: Option<(u64, usize)>)
    requires
        i <= s@.len(),
    ensures
        match r {
            Some((bits, j)) => spec_parse_float_at(s@, i as int) == Some((bits, j as int)) && i < j
                <= s@.len(),
            None => spec_parse_float_at(s@, i as int) is None,
        },
{
    let fe = scan_float_end(s, i);
    let ghost tok = s@.subrange(i as int, fe as int);
    if fe == i {
        proof {
            assert(!has_dot(tok) && tok != inf_token()) by {
                assert(tok.len() == 0);
                assert(inf_token().len() == 3);
            }
        }
        return None;
    }
    let t = slice_subrange(s, i, fe);
    let mut dotted = false;
    let mut m = i;
    while m < fe
        invariant
            i <= m <= fe <= s@.len(),
            dotted <==> exists|j: int| i <= j < m && s@[j] == 46,
        decreases fe - m,
    {
        if s[m] == 46 {
            dotted = true;
        }
        m = m + 1;
    }
    proof {
        assert(dotted <==> has_dot(tok)) by {
            if dotted {
                let j = choose|j: int| i <= j < fe && s@[j] == 46;
                assert(tok[j - i] == 46);
            }
            if has_dot(tok) {
                let j = choose|j: int| 0 <= j < tok.len() && tok[j] == 46;
                assert(s@[i + j] == 46);
            }
        }
    }
    let is_inf = t.len() == 3 && t[0] == 105 && t[1] == 110 && t[2] == 102;
    proof {
        assert(is_inf <==> tok == inf_token()) by {
            if t@.len() == 3 && t@[0] == 105 && t@[1] == 110 && t@[2] == 102 {
                assert(tok =~= inf_token());
            }
            if tok == inf_token() {
                assert(t@[0] == 105 && t@[1] == 110 && t@[2] == 102);
            }
        }
    }
    if !(dotted || is_inf) {
        return None;
    }
    match fbits::of_decimal_bits(t) {
        Some(bits) => Some((bits, fe)),
        None => None,
    }
}

/// Reads a numeric literal at `i`, as the grammar's `number` production.
fn number_at(s: &[u8], i: usize) -> (r: Option<(Number, usize)>)
    requires
        i <= s@.len(),
    ensures
        match r {
            Some((n, j)) => spec_parse_number(s@, i as int) == Some((n, j as int)) && i < j
                <= s@.len(),
            None => spec_parse_number(s@, i as int) is None,
        },
{
    match float_at(s, i) {
        Some((bits, fe)) => {
            return Some((Number::from_bits(bits), fe));
        },
        None => {},
    }
    let de = scan_digit_end(s, i);
    if de == i {
        return None;
    }
    match int_value(s, i, de) {
        Some(v) => Some((Number::Fractional(v, 1), de)),
        None => None,
    }
}

/// Reads a factor at `i`, as the grammar's `factor` production.
fn factor_at(s: &[u8], i: usize) -> (r: Option<(Expr, usize)>)
    requires
        i <= s@.len(),
    ensures
        match r {
            Some((e, j)) => spec_parse_factor(s@, i as int) == Some((e, j as int)) && i < j
                <= s@.len(),
            None => spec_parse_factor(s@, i as int) is None,
        },
    decreases s@.len() - i, 1int,
{
    if i < s.len() && s[i] == 40 {
        match expr_at(s, i + 1) {
            Some((e, j)) => {
                if j < s.len() && s[j] == 41 {
                    Some((e, j + 1))
                } else {
                    None
                }
            },
            None => None,
        }
    } else {
        match number_at(s, i) {
            Some((n, j)) => Some((Expr::Number(n), j)),
            None => None,
        }
    }
}

/// Reads a term at `i`: a factor and its left-folded `*` and `/` chain.
fn term_at(s: &[u8], i: usize) -> (r: Option<(Expr, usize)>)
    requires
        i <= s@.len(),
    ensures
        match r {
            Some((e, j)) => spec_parse_term(s@, i as int) == Some((e, j as int)) && i < j
                <= s@.len(),
            None => spec_parse_term(s@, i as int) is None,
        },
    decreases s@.len() - i, 2int,
{
    match factor_at(s, i) {
        None => None,
        Some((f, j)) => {
            let mut acc = f;
            let mut pos = j;
            while pos < s.len() && (s[pos] == 42 || s[pos] == 47)
                invariant
                    i < pos <= s@.len(),
                    spec_term_chain(s@, pos as int, acc) == spec_parse_term(s@, i as int),
                decreases s@.len() - pos,
            {
                match factor_at(s, pos + 1) {
                    Some((f2, j2)) => {
                        if s[pos] == 42 {
                            acc = Expr::Mul(Box::new(acc), Box::new(f2));
                        } else {
                            acc = Expr::Div(Box::new(acc), Box::new(f2));
                        }
                        pos = j2;
                    },
                    None => {
                        return Some((acc, pos));
                    },
                }
            }
            Some((acc, pos))
        },
    }
}

/// Reads an expression at `i`: a term and its left-folded `+` and `-`
/// chain.
fn expr_at(s: &[u8], i: usize) -> (r: Option<(Expr, usize)>)
    requires
        i <= s@.len(),
    ensures
        match r {
            Some((e, j)) => spec_parse_expr(s@, i as int) == Some((e, j as int)) && i < j
                <= s@.len(),
            None => spec_parse_expr(s@, i as int) is None,
        },
    decreases s@.len() - i, 3int,
{
    match term_at(s, i) {
        None => None,
        Some((t, j)) => {
            let mut acc = t;
            let mut pos = j;
            while pos < s.len() && (s[pos] == 43 || s[pos] == 45)
                invariant
                    i < pos <= s@.len(),
                    spec_expr_chain(s@, pos as int, acc) == spec_parse_expr(s@, i as int),
                decreases s@.len() - pos,
            {
                match term_at(s, pos + 1) {
                    Some((t2, j2)) => {
                        if s[pos] == 43 {
                            acc = Expr::Add(Box::new(acc), Box::new(t2));
                        } else {
                            acc = Expr::Sub(Box::new(acc), Box::new(t2));
                        }
                        pos = j2;
                    },
                    None => {
                        return Some((acc, pos));
                    },
                }
            }
            Some((acc, pos))
        },
    }
}

/// The start of a trailing whitespace run never lies past its end.
proof fn lemma_ws_back_le(s: Seq<u8>, j: int)
    requires
        0 <= j <= s.len(),
    ensures
        0 <= ws_back_start(s, j) <= j,
    decreases j,
{
    if j > 0 && is_ws_byte(s[j - 1]) {
        lemma_ws_back_le(s, j - 1);
    }
}

/// `remove_spaces` over one more byte keeps the removed prefix and appends
/// the byte when it is not a space.
proof fn lemma_remove_spaces_push(t: Seq<u8>, b: u8)
    ensures
        remove_spaces(t.push(b)) == if b == 32 {
            remove_spaces(t)
        } else {
            remove_spaces(t).push(b)
        },
{
    let u = t.push(b);
    assert(u.drop_last() =~= t);
    assert(u.last() == b);
}

/// Trims whitespace from both ends and removes every interior space.
fn strip(s: &[u8]) -> (t: Vec<u8>)
    ensures
        t@ == strip_spec(s@),
{
    let mut lo: usize = 0;
    while lo < s.len() && (s[lo] == 32 || (9 <= s[lo] && s[lo] <= 13))
        invariant
            0 <= lo <= s@.len(),
            ws_run_end(s@, 0) == ws_run_end(s@, lo as int),
        decreases s@.len() - lo,
    {
        lo = lo + 1;
    }
    let mut hi: usize = s.len();
    while hi > lo && (s[hi - 1] == 32 || (9 <= s[hi - 1] && s[hi - 1] <= 13))
        invariant
            lo <= hi <= s@.len(),
            lo == ws_run_end(s@, 0),
            ws_back_start(s@, s@.len() as int) == ws_back_start(s@, hi as int) || ws_back_start(
                s@,
                s@.len() as int,
            ) < lo,
            ws_back_start(s@, s@.len() as int) < lo ==> ws_back_start(s@, hi as int) <= lo,
        decreases hi,
    {
        hi = hi - 1;
    }
    proof {
        let back = ws_back_start(s@, s@.len() as int);
        let target = if back < lo as int {
            lo as int
        } else {
            back
        };
        assert(hi as int == target) by {
            if back < lo as int {
                assert(ws_back_start(s@, hi as int) <= lo);
                assert(hi as int >= lo);
                if hi as int > lo as int {
                    assert(!(hi > lo && is_ws_byte(s@[hi - 1])));
                    assert(ws_back_start(s@, hi as int) == hi as int);
                }
            } else {
                assert(ws_back_start(s@, hi as int) == back);
                if hi as int > back {
                    assert(!(hi > lo && is_ws_byte(s@[hi - 1])));
                    assert(ws_back_start(s@, hi as int) == hi as int);
                }
                if (hi as int) < back {
                    lemma_ws_back_le(s@, hi as int);
                }
            }
        }
    }
    let mut out: Vec<u8> = Vec::new();
    let mut k = lo;
    while k < hi
        invariant
            lo <= k <= hi <= s@.len(),
            out@ == remove_spaces(s@.subrange(lo as int, k as int)),
        decreases hi - k,
    {
        let ghost pre = s@.subrange(lo as int, k as int);
        proof {
            assert(s@.subrange(lo as int, k as int + 1) =~= pre.push(s@[k as int]));
            lemma_remove_spaces_push(pre, s@[k as int]);
        }
        if s[k] != 32 {
            out.push(s[k]);
        }
        k = k + 1;
    }
    out
}

/// A digit run that demonstrably covers `[i, e)` and stops there ends
/// exactly at `e`.
pub proof fn lemma_digit_run_exact(s: Seq<u8>, i: int, e: int)
    requires
        0 <= i <= e <= s.len(),
        forall|k: int| i <= k < e ==> is_digit_byte(#[trigger] s[k]),
        e < s.len() ==> !is_digit_byte(s[e]),
    ensures
        digit_run_end(s, i) == e,
    decreases e - i,
{
    if i < e {
        lemma_digit_run_exact(s, i + 1, e);
    }
}

/// A float-symbol run that demonstrably covers `[i, e)` and stops there
/// ends exactly at `e`.
pub proof fn lemma_float_run_exact(s: Seq<u8>, i: int, e: int)
    requires
        0 <= i <= e <= s.len(),
        forall|k: int| i <= k < e ==> is_float_byte(#[trigger] s[k]),
        e < s.len() ==> !is_float_byte(s[e]),
    ensures
        float_run_end(s, i) == e,
    decreases e - i,
{
    if i < e {
        lemma_float_run_exact(s, i + 1, e);
    }
}

/// The decimal digits of a non-negative integer read back as that integer.
pub proof fn lemma_digits_val_of_dec(v: int)
    requires
        v >= 0,
    ensures
        digits_val(crate::number::dec_digits(v)) == v,
    decreases v,
{
    let dig = crate::number::dec_digits(v);
    if v < 10 {
        assert(dig =~= seq![(48 + v) as u8]);
        assert(dig.drop_last() =~= Seq::<u8>::empty());
        assert(digits_val(dig) == digits_val(dig.drop_last()) * 10 + (dig.last() - 48));
        assert(dig.last() == (48 + v) as u8);
        assert(digits_val(dig) == 0 * 10 + v);
    } else {
        lemma_digits_val_of_dec(v / 10);
        let pre = crate::number::dec_digits(v / 10);
        assert(dig =~= pre.push((48 + v % 10) as u8));
        assert(dig.drop_last() =~= pre);
        assert(dig.last() == (48 + v % 10) as u8);
        assert(digits_val(dig) == digits_val(pre) * 10 + (dig.last() - 48));
        vstd::arithmetic::div_mod::lemma_fundamental_div_mod(v, 10);
        assert(digits_val(dig) == (v / 10) * 10 + v % 10);
    }
}

/// At a position where the digits of `v` stand, followed by the end of the
/// text or a byte that no literal may contain, the `number` production
/// reads exactly `v` over 1.
pub proof fn lemma_number_at_digits(s: Seq<u8>, i: int, v: i64)
    requires
        v >= 0,
        0 <= i,
        i + crate::number::dec_digits(v as int).len() <= s.len(),
        s.subrange(i, i + crate::number::dec_digits(v as int).len() as int) == crate::number::dec_digits(
            v as int,
        ),
        i + crate::number::dec_digits(v as int).len() < s.len() ==> !is_float_byte(
            s[i + crate::number::dec_digits(v as int).len()],
        ),
    ensures
        ({
            let e = i + crate::number::dec_digits(v as int).len();
            &&& spec_parse_number(s, i) == Some((Number::Fractional(v, 1), e))
            &&& spec_parse_factor(s, i) == Some((Expr::Number(Number::Fractional(v, 1)), e))
        }),
{
    let dig = crate::number::dec_digits(v as int);
    let e = i + dig.len();
    crate::number::lemma_dec_digits_ascii(v as int);
    assert forall|k: int| i <= k < e implies is_digit_byte(#[trigger] s[k]) by {
        assert(s.subrange(i, e)[k - i] == s[k]);
        assert(dig[k - i] == s[k]);
        assert(48 <= dig[k - i] <= 57);
    }
    lemma_digit_run_exact(s, i, e);
    lemma_float_run_exact(s, i, e);
    let tok = s.subrange(i, e);
    assert(tok =~= dig);
    assert(!has_dot(tok)) by {
        if has_dot(tok) {
            let j = choose|j: int| 0 <= j < tok.len() && tok[j] == 46;
            assert(is_digit_byte(dig[j]));
        }
    }
    assert(tok != inf_token()) by {
        assert(is_digit_byte(dig[0]));
        assert(inf_token()[0] == 105);
        if tok == inf_token() {
            assert(dig[0] == 105);
        }
    }
    assert(spec_parse_float_at(s, i) is None);
    lemma_digits_val_of_dec(v as int);
    assert(s.subrange(i, digit_run_end(s, i)) == dig);
    assert(spec_parse_int_at(s, i) == Some((v, e)));
    assert(is_digit_byte(s[i]));
    assert(s[i] != 40);
}

/// A position preceded only by ASCII bytes is a character boundary of a
/// valid UTF-8 sequence.
proof fn lemma_ascii_prefix_boundary(bytes: Seq<u8>, k: int)
    requires
        vstd::utf8::valid_utf8(bytes),
        0 <= k <= bytes.len(),
        forall|j: int| 0 <= j < k ==> #[trigger] bytes[j] < 128,
    ensures
        vstd::utf8::is_char_boundary(bytes, k),
    decreases k,
{
    if k > 0 {
        assert(vstd::utf8::length_of_first_scalar(bytes) == 1);
        let rest = vstd::utf8::pop_first_scalar(bytes);
        assert(rest =~= bytes.subrange(1, bytes.len() as int));
        lemma_ascii_prefix_boundary(rest, k - 1);
    }
}

/// The boundary lemma, at the end of a run of digits or float symbols of
/// the text's encoding.
proof fn lemma_run_boundary(input: &str, k: int)
    requires
        0 <= k <= input.spec_bytes().len(),
        forall|j: int| 0 <= j < k ==> #[trigger] input.spec_bytes()[j] < 128,
    ensures
        vstd::utf8::is_char_boundary(input.spec_bytes(), k),
{
    vstd::utf8::encode_utf8_valid_utf8(input@);
    lemma_ascii_prefix_boundary(input.spec_bytes(), k);
}

/// Reads the integer literal that starts the text: the maximal run of
/// digits, which must be non-empty and fit in `i64`.  On success the
/// remaining text and the value are returned, as `(rest, value)`.
pub fn parse_integer(input: &str) -> (r: Result<(&str, i64), ParseError>)
    ensures
        ({
            let s = input.spec_bytes();
            match r {
                Ok((rest, v)) => spec_parse_int_at(s, 0) matches Some((w, j)) && w == v
                    && rest.spec_bytes() =~= s.subrange(j, s.len() as int),
                Err(e) => spec_parse_int_at(s, 0) is None && e is SyntaxError,
            }
        }),
{
    let bytes = input.as_bytes();
    let de = scan_digit_end(bytes, 0);
    if de == 0 {
        return Err(ParseError::SyntaxError);
    }
    match int_value(bytes, 0, de) {
        None => Err(ParseError::SyntaxError),
        Some(v) => {
            proof {
                lemma_digit_run(bytes@, 0);
                lemma_run_boundary(input, de as int);
            }
            let (_, rest) = input.split_at(de);
            Ok((rest, v))
        },
    }
}

/// Reads the float literal that starts the text: the maximal run of float
/// symbols, accepted only when it holds a dot or is exactly `inf`.  On
/// success the remaining text and the bit pattern of the value are
/// returned, as `(rest, bits)`.
pub fn parse_float(input: &str) -> (r: Result<(&str, u64), ParseError>)
    ensures
        ({
            let s = input.spec_bytes();
            match r {
                Ok((rest, bits)) => spec_parse_float_at(s, 0) matches Some((b, j)) && b == bits
                    && rest.spec_bytes() =~= s.subrange(j, s.len() as int),
                Err(e) => spec_parse_float_at(s, 0) is None && e is SyntaxError,
            }
        }),
{
    let bytes = input.as_bytes();
    match float_at(bytes, 0) {
        None => Err(ParseError::SyntaxError),
        Some((bits, fe)) => {
            proof {
                lemma_float_run(bytes@, 0);
                lemma_run_boundary(input, fe as int);
            }
            let (_, rest) = input.split_at(fe);
            Ok((rest, bits))
        },
    }
}

/// Reads the numeric literal that starts the text: a float literal if one
/// is accepted here, else an integer literal, as the grammar's `number`
/// production.  On success the remaining text and the number are returned.
pub fn parse_number(input: &str) -> (r: Result<(&str, Number), ParseError>)
    ensures
        ({
            let s = input.spec_bytes();
            match r {
                Ok((rest, n)) => spec_parse_number(s, 0) matches Some((m, j)) && m == n
                    && rest.spec_bytes() =~= s.subrange(j, s.len() as int),
                Err(e) => spec_parse_number(s, 0) is None && e is SyntaxError,
            }
        }),
{
    let bytes = input.as_bytes();
    match number_at(bytes, 0) {
        None => Err(ParseError::SyntaxError),
        Some((n, j)) => {
            proof {
                lemma_float_run(bytes@, 0);
                lemma_digit_run(bytes@, 0);
                assert(forall|m: int| 0 <= m < j ==> #[trigger] bytes@[m] < 128);
                lemma_run_boundary(input, j as int);
            }
            let (_, rest) = input.split_at(j);
            Ok((rest, n))
        },
    }
}

/// Parses a line of text into an expression tree.  The line is trimmed and
/// its spaces removed; then the whole remainder must read as one `expr`:
/// a syntax error is reported when no expression starts the text (an empty
/// line, an unmatched parenthesis, a stray symbol), and an incomplete
/// parse when a valid expression is followed by more text.
pub fn parse(input: &str) -> (r: Result<Expr, ParseError>)
    ensures
        ({
            let t = strip_spec(input.spec_bytes());
            match r {
                Ok(e) => spec_parse_expr(t, 0) == Some((e, t.len() as int)),
                Err(ParseError::IncompleteParse) => spec_parse_expr(t, 0) matches Some((_, j))
                    && j < t.len(),
                Err(ParseError::SyntaxError) => spec_parse_expr(t, 0) is None,
            }
        }),
{
    let bytes = input.as_bytes();
    let t = strip(bytes);
    match expr_at(t.as_slice(), 0) {
        Some((e, j)) => {
            if j == t.len() {
                Ok(e)
            } else {
                Err(ParseError::IncompleteParse)
            }
        },
        None => Err(ParseError::SyntaxError),
    }
}

} // verus!
