//! Exact rational values and the operators' numeric functions.
//!
//! Every number in a statement is held exactly as a fraction of two signed
//! machine integers with a positive denominator.  Arithmetic is exact: a
//! result whose unreduced numerator or denominator falls outside the
//! representable range is reported as [`MathError::Overflow`] rather than
//! rounded, and a zero divisor is reported as
//! [`MathError::DivisionByZero`].

use vstd::prelude::*;

use vstd::arithmetic::div_mod::lemma_div_multiples_vanish;
use vstd::arithmetic::div_mod::lemma_fundamental_div_mod;
use vstd::arithmetic::div_mod::lemma_mod_multiples_basic;
use vstd::arithmetic::power::lemma0_pow;
use vstd::arithmetic::power::lemma1_pow;
use vstd::arithmetic::power::lemma_pow_increases;
use vstd::arithmetic::power::lemma_pow_positive;
use vstd::arithmetic::power::pow;
use vstd::math::abs;

use crate::errors::MathError;
use crate::parser::is_digit_run;
use crate::parser::spec_digit;
use crate::table::Op;

verus! {

/// Whether a magnitude fits the representable range.  The range is
/// symmetric, so that every representable numerator can also be negated.
pub open spec fn representable(x: int) -> bool {
    -(i64::MAX as int) <= x <= i64::MAX as int
}

/// A mathematical rational, as an unreduced pair: what a [`Value`] looks
/// like in contracts.
#[verifier::ext_equal]
pub struct Rat {
    pub n: int,
    pub d: int,
}

/// A well-formed rational: positive denominator, both parts representable.
pub open spec fn rat_wf(r: Rat) -> bool {
    r.d > 0 && representable(r.n) && representable(r.d)
}

/// Two rationals are equal as numbers when their cross products agree.
pub open spec fn rat_eq(a: Rat, b: Rat) -> bool {
    a.n * b.d == b.n * a.d
}

/// An exact rational value: `num / den`.
#[derive(Clone, Copy, PartialEq, Eq, Structural, Debug)]
pub struct Value {
    pub num: i64,
    pub den: i64,
}

impl View for Value {
    type V = Rat;

    open spec fn view(&self) -> Rat {
        Rat { n: self.num as int, d: self.den as int }
    }
}

impl Value {
    /// Well-formedness: the denominator is positive and both parts lie in
    /// the symmetric representable range.
    pub open spec fn wf(&self) -> bool {
        rat_wf(self@)
    }

    /// The value of a whole number.
    pub fn from_integer(n: i64) -> (r: Value)
        requires
            representable(n as int),
        ensures
            r@ == (Rat { n: n as int, d: 1 }),
            r.wf(),
    {
        Value { num: n, den: 1 }
    }
}

/// Whether two values are equal as numbers.
pub fn values_equal(x: &Value, y: &Value) -> (r: bool)
    requires
        x.wf(),
        y.wf(),
    ensures
        r == rat_eq(x@, y@),
{
    proof {
        lemma_mul_bound(x@.n, y@.d, i64::MAX as int);
        lemma_mul_bound(y@.n, x@.d, i64::MAX as int);
    }
    (x.num as i128) * (y.den as i128) == (y.num as i128) * (x.den as i128)
}

/// A bound on a product from bounds on its factors.
proof fn lemma_mul_bound(a: int, b: int, m: int)
    by (nonlinear_arith)
    requires
        0 <= m,
        -m <= a <= m,
        -m <= b <= m,
    ensures
        -(m * m) <= a * b <= m * m,
{
}

/// The exact sum, as an unreduced pair.
pub open spec fn spec_add_rat(x: Rat, y: Rat) -> Rat {
    Rat { n: x.n * y.d + y.n * x.d, d: x.d * y.d }
}

/// The exact difference, as an unreduced pair.
pub open spec fn spec_sub_rat(x: Rat, y: Rat) -> Rat {
    Rat { n: x.n * y.d - y.n * x.d, d: x.d * y.d }
}

/// The exact product, as an unreduced pair.
pub open spec fn spec_mul_rat(x: Rat, y: Rat) -> Rat {
    Rat { n: x.n * y.n, d: x.d * y.d }
}

/// The reciprocal, with the sign moved into the numerator.
pub open spec fn spec_invert(y: Rat) -> Rat
    recommends
        y.n != 0,
{
    if y.n > 0 {
        Rat { n: y.d, d: y.n }
    } else {
        Rat { n: -y.d, d: -y.n }
    }
}

/// The exact quotient, as an unreduced pair.
pub open spec fn spec_div_rat(x: Rat, y: Rat) -> Rat
    recommends
        y.n != 0,
{
    spec_mul_rat(x, spec_invert(y))
}

/// The exact power by a whole exponent, as an unreduced pair.
pub open spec fn spec_pow_rat(b: Rat, e: nat) -> Rat {
    Rat { n: pow(b.n, e), d: pow(b.d, e) }
}

/// An exact result if it is representable, `Overflow` otherwise.
pub open spec fn spec_checked(r: Rat) -> Result<Rat, MathError> {
    if representable(r.n) && representable(r.d) {
        Ok(r)
    } else {
        Err(MathError::Overflow)
    }
}

/// What a power evaluates to: the exponent must be a whole number, and a
/// negative exponent inverts a nonzero base.
pub open spec fn spec_pow_result(x: Rat, y: Rat) -> Result<Rat, MathError> {
    if y.n % y.d != 0 {
        Err(MathError::NonIntegerExponent)
    } else {
        let e = y.n / y.d;
        if e >= 0 {
            spec_checked(spec_pow_rat(x, e as nat))
        } else if x.n == 0 {
            Err(MathError::DivisionByZero)
        } else {
            spec_checked(spec_pow_rat(spec_invert(x), (-e) as nat))
        }
    }
}

/// What one operator application evaluates to.
pub open spec fn spec_apply_op(op: Op, x: Rat, y: Rat) -> Result<Rat, MathError> {
    match op {
        Op::Add => spec_checked(spec_add_rat(x, y)),
        Op::Sub => spec_checked(spec_sub_rat(x, y)),
        Op::Mul => spec_checked(spec_mul_rat(x, y)),
        Op::Div => if y.n == 0 {
            Err(MathError::DivisionByZero)
        } else {
            spec_checked(spec_div_rat(x, y))
        },
        Op::Pow => spec_pow_result(x, y),
    }
}

/// Whether an executable result agrees, case by case, with a specified one.
pub open spec fn result_matches(r: Result<Value, MathError>, s: Result<Rat, MathError>) -> bool {
    match (r, s) {
        (Ok(v), Ok(q)) => v@ == q,
        (Err(a), Err(b)) => a == b,
        _ => false,
    }
}

/// Packs an exact pair into a value, or reports `Overflow`.
fn checked_value(n: i128, d: i128) -> (r: Result<Value, MathError>)
    requires
        0 < d,
        d <= (i64::MAX as int) * (i64::MAX as int),
    ensures
        result_matches(r, spec_checked(Rat { n: n as int, d: d as int })),
        r matches Ok(v) ==> v.wf(),
{
    let limit: i128 = i64::MAX as i128;
    if n < -limit || n > limit || d > limit {
        Err(MathError::Overflow)
    } else {
        Ok(Value { num: n as i64, den: d as i64 })
    }
}

/// Applies one operator to two values: the numeric function of the
/// operator, computed exactly.
pub fn apply_op(op: Op, x: Value, y: Value) -> (r: Result<Value, MathError>)
    requires
        x.wf(),
        y.wf(),
    ensures
        result_matches(r, spec_apply_op(op, x@, y@)),
        r matches Ok(v) ==> v.wf(),
{
    proof {
        lemma_mul_bound(x@.n, y@.d, i64::MAX as int);
        lemma_mul_bound(y@.n, x@.d, i64::MAX as int);
        lemma_mul_bound(x@.n, y@.n, i64::MAX as int);
        lemma_mul_bound(x@.d, y@.d, i64::MAX as int);
        assert(x@.d * y@.d > 0) by (nonlinear_arith)
            requires
                x@.d > 0,
                y@.d > 0;
    }
    match op {
        Op::Add => {
            let n: i128 = (x.num as i128) * (y.den as i128) + (y.num as i128) * (x.den as i128);
            let d: i128 = (x.den as i128) * (y.den as i128);
            checked_value(n, d)
        },
        Op::Sub => {
            let n: i128 = (x.num as i128) * (y.den as i128) - (y.num as i128) * (x.den as i128);
            let d: i128 = (x.den as i128) * (y.den as i128);
            checked_value(n, d)
        },
        Op::Mul => {
            let n: i128 = (x.num as i128) * (y.num as i128);
            let d: i128 = (x.den as i128) * (y.den as i128);
            checked_value(n, d)
        },
        Op::Div => {
            if y.num == 0 {
                Err(MathError::DivisionByZero)
            } else {
                let (inv_n, inv_d): (i64, i64) = if y.num > 0 {
                    (y.den, y.num)
                } else {
                    (-y.den, -y.num)
                };
                proof {
                    lemma_mul_bound(x@.n, inv_n as int, i64::MAX as int);
                    lemma_mul_bound(x@.d, inv_d as int, i64::MAX as int);
                    assert(x@.d * (inv_d as int) > 0) by (nonlinear_arith)
                        requires
                            x@.d > 0,
                            (inv_d as int) > 0;
                }
                let n: i128 = (x.num as i128) * (inv_n as i128);
                let d: i128 = (x.den as i128) * (inv_d as i128);
                checked_value(n, d)
            }
        },
        Op::Pow => apply_pow(x, y),
    }
}

/// Raises `x` to the power `y`, which must be a whole number.
fn apply_pow(x: Value, y: Value) -> (r: Result<Value, MathError>)
    requires
        x.wf(),
        y.wf(),
    ensures
        result_matches(r, spec_pow_result(x@, y@)),
        r matches Ok(v) ==> v.wf(),
{
    let da: u64 = y.den as u64;
    let na: u64 = if y.num >= 0 {
        y.num as u64
    } else {
        (-y.num) as u64
    };
    proof {
        lemma_abs_div_mod(y@.n, y@.d);
    }
    if na % da != 0 {
        return Err(MathError::NonIntegerExponent);
    }
    let e_abs: u64 = na / da;
    let ghost e: int = y@.n / y@.d;
    if y.num >= 0 {
        proof {
            assert(e == e_abs as int);
        }
        pow_parts(x.num, x.den, e_abs)
    } else {
        proof {
            assert(e == -(e_abs as int));
            lemma_fundamental_div_mod(abs(y@.n) as int, y@.d);
            assert(abs(y@.n) as int == y@.d * (e_abs as int));
            assert(y@.d * (e_abs as int) > 0 ==> e_abs as int > 0) by (nonlinear_arith)
                requires
                    y@.d > 0;
            assert(e < 0);
        }
        if x.num == 0 {
            Err(MathError::DivisionByZero)
        } else {
            let (inv_n, inv_d): (i64, i64) = if x.num > 0 {
                (x.den, x.num)
            } else {
                (-x.den, -x.num)
            };
            pow_parts(inv_n, inv_d, e_abs)
        }
    }
}

/// Division and remainder of an integer by a positive divisor agree with
/// those of its magnitude: divisibility is unsigned, and the quotient of an
/// exact division only changes sign.
proof fn lemma_abs_div_mod(n: int, d: int)
    requires
        d > 0,
    ensures
        (n % d == 0) <==> (abs(n) as int % d == 0),
        n % d == 0 && n >= 0 ==> n / d == abs(n) as int / d,
        n % d == 0 && n < 0 ==> n / d == -(abs(n) as int / d),
{
    if n >= 0 {
        assert(abs(n) as int == n);
    } else {
        let m = abs(n) as int;
        assert(m == -n);
        if m % d == 0 {
            lemma_fundamental_div_mod(m, d);
            let q = m / d;
            assert(m == d * q);
            assert(d * (-q) == -(d * q) && d * (-q) == (-q) * d) by (nonlinear_arith);
            assert(n == d * (-q));
            lemma_mod_multiples_basic(-q, d);
            lemma_div_multiples_vanish(-q, d);
            assert(n % d == 0);
            assert(n / d == -q);
        }
        if n % d == 0 {
            lemma_fundamental_div_mod(n, d);
            let q = n / d;
            assert(n == d * q);
            assert(d * (-q) == -(d * q) && d * (-q) == (-q) * d) by (nonlinear_arith);
            assert(m == d * (-q));
            lemma_mod_multiples_basic(-q, d);
            assert(m % d == 0);
        }
    }
}

/// The magnitude of a power is the power of the magnitude.
proof fn lemma_pow_abs(b: int, e: nat)
    ensures
        abs(pow(b, e)) as int == pow(abs(b) as int, e),
    decreases e,
{
    reveal(pow);
    if e == 0 {
    } else {
        lemma_pow_abs(b, (e - 1) as nat);
        assert(abs(b * pow(b, (e - 1) as nat)) as int == (abs(b) as int) * (abs(
            pow(b, (e - 1) as nat),
        ) as int)) by (nonlinear_arith);
    }
}

/// With a base of magnitude at least one, the magnitude of a power grows
/// with the exponent.
proof fn lemma_pow_abs_increases(b: int, e1: nat, e2: nat)
    requires
        abs(b) >= 1,
        e1 <= e2,
    ensures
        abs(pow(b, e1)) <= abs(pow(b, e2)),
{
    lemma_pow_abs(b, e1);
    lemma_pow_abs(b, e2);
    lemma_pow_increases(abs(b), e1, e2);
}

/// The power of a value of magnitude one.
proof fn lemma_pow_unit(b: int, e: nat)
    requires
        b == 1 || b == -1,
    ensures
        b == 1 ==> pow(b, e) == 1,
        b == -1 && e % 2 == 0 ==> pow(b, e) == 1,
        b == -1 && e % 2 == 1 ==> pow(b, e) == -1,
    decreases e,
{
    reveal(pow);
    if e > 0 {
        lemma_pow_unit(b, (e - 1) as nat);
    }
}

/// Raises the exact pair `bn / bd` to the exponent `e`, reporting
/// `Overflow` as soon as either part can no longer be represented.
fn pow_parts(bn: i64, bd: i64, e: u64) -> (r: Result<Value, MathError>)
    requires
        bd > 0,
        representable(bn as int),
        representable(bd as int),
    ensures
        result_matches(r, spec_checked(spec_pow_rat(Rat { n: bn as int, d: bd as int }, e as nat))),
        r matches Ok(v) ==> v.wf(),
{
    if bd == 1 && (bn == 0 || bn == 1 || bn == -1) {
        proof {
            lemma1_pow(e as nat);
            lemma_pow_unit(-1, e as nat);
            if e > 0 {
                lemma0_pow(e as nat);
            }
            reveal(pow);
        }
        if bn == 1 || (bn == 0 && e == 0) || (bn == -1 && e % 2 == 0) {
            return Ok(Value { num: 1, den: 1 });
        }
        if bn == 0 {
            return Ok(Value { num: 0, den: 1 });
        }
        return Ok(Value { num: -1, den: 1 });
    }
    let limit: i128 = i64::MAX as i128;
    let mut acc_n: i128 = 1;
    let mut acc_d: i128 = 1;
    let mut k: u64 = 0;
    proof {
        reveal(pow);
    }
    while k < e
        invariant
            k <= e,
            representable(bn as int),
            representable(bd as int),
            bd > 0,
            limit == i64::MAX as int,
            acc_n as int == pow(bn as int, k as nat),
            acc_d as int == pow(bd as int, k as nat),
            representable(acc_n as int),
            representable(acc_d as int),
        decreases e - k,
    {
        proof {
            lemma_mul_bound(acc_n as int, bn as int, i64::MAX as int);
            lemma_mul_bound(acc_d as int, bd as int, i64::MAX as int);
        }
        let new_n: i128 = acc_n * (bn as i128);
        let new_d: i128 = acc_d * (bd as i128);
        proof {
            reveal(pow);
            assert(pow(bn as int, (k + 1) as nat) == (bn as int) * pow(bn as int, k as nat));
            assert(pow(bd as int, (k + 1) as nat) == (bd as int) * pow(bd as int, k as nat));
            assert((bn as int) * pow(bn as int, k as nat) == pow(bn as int, k as nat) * (
            bn as int)) by (nonlinear_arith);
            assert((bd as int) * pow(bd as int, k as nat) == pow(bd as int, k as nat) * (
            bd as int)) by (nonlinear_arith);
        }
        if new_n < -limit || new_n > limit {
            proof {
                assert(bn != 0) by {
                    if bn == 0 {
                        lemma0_pow((k + 1) as nat);
                    }
                };
                lemma_pow_abs_increases(bn as int, (k + 1) as nat, e as nat);
            }
            return Err(MathError::Overflow);
        }
        if new_d < -limit || new_d > limit {
            proof {
                lemma_pow_abs_increases(bd as int, (k + 1) as nat, e as nat);
            }
            return Err(MathError::Overflow);
        }
        acc_n = new_n;
        acc_d = new_d;
        k = k + 1;
    }
    proof {
        lemma_pow_positive(bd as int, e as nat);
    }
    Ok(Value { num: acc_n as i64, den: acc_d as i64 })
}

/// The numeric value of a digit.
pub open spec fn digit_val(c: char) -> int
    recommends
        spec_digit(c),
{
    (c as u32) - ('0' as u32)
}

/// The numeric value written by a digit run.
pub open spec fn digits_val(s: Seq<char>) -> int
    decreases s.len(),
{
    if s.len() == 0 {
        0
    } else {
        digits_val(s.drop_last()) * 10 + digit_val(s.last())
    }
}

/// What a number literal evaluates to: its exact whole value, if
/// representable.
pub open spec fn spec_number_value(s: Seq<char>) -> Result<Rat, MathError> {
    if representable(digits_val(s)) {
        Ok(Rat { n: digits_val(s), d: 1 })
    } else {
        Err(MathError::Overflow)
    }
}

/// A digit run's value is at least the value of any of its prefixes.
proof fn lemma_digits_val_prefix(s: Seq<char>, k: int)
    requires
        forall|i: int| 0 <= i < s.len() ==> spec_digit(#[trigger] s[i]),
        0 <= k <= s.len(),
    ensures
        0 <= digits_val(s.take(k)) <= digits_val(s),
    decreases s.len(),
{
    if s.len() == 0 {
        assert(s.take(k) =~= s);
    } else {
        let t = s.drop_last();
        assert(forall|i: int| 0 <= i < t.len() ==> spec_digit(#[trigger] t[i]));
        lemma_digits_val_prefix(t, if k <= t.len() {
            k
        } else {
            t.len() as int
        });
        assert(t.take(t.len() as int) =~= t);
        assert(digits_val(t) >= 0);
        assert(digits_val(s) == digits_val(t) * 10 + digit_val(s.last()));
        assert(digits_val(t) * 10 >= digits_val(t)) by (nonlinear_arith)
            requires
                digits_val(t) >= 0;
        if k <= t.len() {
            assert(s.take(k) =~= t.take(k));
        } else {
            assert(s.take(k) =~= s);
        }
    }
}

/// Reads the exact value of a number literal.
pub fn number_value(text: &str) -> (r: Result<Value, MathError>)
    requires
        is_digit_run(text@),
    ensures
        result_matches(r, spec_number_value(text@)),
        r matches Ok(v) ==> v.wf(),
{
    let ghost s: Seq<char> = text@;
    let n: usize = text.unicode_len();
    let mut acc: u64 = 0;
    let mut i: usize = 0;
    proof {
        assert(s.take(0) =~= Seq::<char>::empty());
    }
    while i < n
        invariant
            i <= n,
            n == s.len(),
            text@ == s,
            is_digit_run(s),
            acc as int == digits_val(s.take(i as int)),
            acc <= i64::MAX,
        decreases n - i,
    {
        let c: char = text.get_char(i);
        let d: u64 = ((c as u32) - ('0' as u32)) as u64;
        let next: u128 = (acc as u128) * 10 + (d as u128);
        proof {
            assert(s.take(i as int + 1).drop_last() =~= s.take(i as int));
            assert(s.take(i as int + 1).last() == s[i as int]);
            assert(digits_val(s.take(i as int + 1)) == digits_val(s.take(i as int)) * 10
                + digit_val(s[i as int]));
        }
        if next > (i64::MAX as u128) {
            proof {
                lemma_digits_val_prefix(s, i as int + 1);
                assert(s.take(n as int) =~= s);
                lemma_digits_val_prefix(s, n as int);
            }
            return Err(MathError::Overflow);
        }
        acc = next as u64;
        i = i + 1;
    }
    proof {
        assert(s.take(n as int) =~= s);
    }
    Ok(Value { num: acc as i64, den: 1 })
}

} // verus!
