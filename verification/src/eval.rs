//! The evaluator: a recursive walk of the tree computing an exact rational
//! result, with defined failure semantics per operator. Children are
//! evaluated left before right, and the first failure short-circuits.
//!
//! Arithmetic is exact and unreduced: `a/b + c/d` is `(ad + cb) / bd`. Any
//! intermediate numerator or denominator outside `-i64::MAX ..= i64::MAX`
//! is reported as `EvalError::Overflow`.

use crate::ast::{lemma_mul_bound, Expr, Rat};
use crate::errors::EvalError;
use crate::ops::Operator;
use vstd::arithmetic::div_mod::{lemma_fundamental_div_mod, lemma_fundamental_div_mod_converse};
use vstd::prelude::*;

verus! {

/// A numerator or denominator the engine can hold.
pub open spec fn fits(x: int) -> bool {
    -i64::MAX <= x <= i64::MAX
}

/// A well-formed unreduced rational: positive denominator, both parts in
/// range.
pub open spec fn q_wf(q: (int, int)) -> bool {
    fits(q.0) && 1 <= q.1 <= i64::MAX
}

/// The value of a `Rat` as a numerator-denominator pair.
pub open spec fn qv(r: Rat) -> (int, int) {
    (r.num as int, r.den as int)
}

/// A spec-level pair packed back into a `Rat`, for error payloads.
pub open spec fn rat_of(q: (int, int)) -> Rat {
    Rat { num: q.0 as i64, den: q.1 as i64 }
}

pub open spec fn sp_add(a: (int, int), b: (int, int)) -> Result<(int, int), EvalError> {
    let n = a.0 * b.1 + b.0 * a.1;
    let d = a.1 * b.1;
    if fits(n) && fits(d) {
        Ok((n, d))
    } else {
        Err(EvalError::Overflow)
    }
}

pub open spec fn sp_sub(a: (int, int), b: (int, int)) -> Result<(int, int), EvalError> {
    let n = a.0 * b.1 - b.0 * a.1;
    let d = a.1 * b.1;
    if fits(n) && fits(d) {
        Ok((n, d))
    } else {
        Err(EvalError::Overflow)
    }
}

pub open spec fn sp_mul(a: (int, int), b: (int, int)) -> Result<(int, int), EvalError> {
    let n = a.0 * b.0;
    let d = a.1 * b.1;
    if fits(n) && fits(d) {
        Ok((n, d))
    } else {
        Err(EvalError::Overflow)
    }
}

/// Division: exact, with the result's denominator kept positive. A divisor
/// whose value is exactly zero fails.
pub open spec fn sp_div(a: (int, int), b: (int, int)) -> Result<(int, int), EvalError> {
    if b.0 == 0 {
        Err(EvalError::DivisionByZero)
    } else {
        let n0 = a.0 * b.1;
        let d0 = a.1 * b.0;
        let n = if d0 < 0 {
            -n0
        } else {
            n0
        };
        let d = if d0 < 0 {
            -d0
        } else {
            d0
        };
        if fits(n) && fits(d) {
            Ok((n, d))
        } else {
            Err(EvalError::Overflow)
        }
    }
}

/// Floor division: exact division followed by floor, so the result is the
/// integer `floor((a.0 * b.1) / (a.1 * b.0))`.
pub open spec fn sp_idiv(a: (int, int), b: (int, int)) -> Result<(int, int), EvalError> {
    if b.0 == 0 {
        Err(EvalError::DivisionByZero)
    } else {
        let p0 = a.0 * b.1;
        let q0 = a.1 * b.0;
        let p = if q0 < 0 {
            -p0
        } else {
            p0
        };
        let q = if q0 < 0 {
            -q0
        } else {
            q0
        };
        let t = p / q;
        if fits(t) {
            Ok((t, 1))
        } else {
            Err(EvalError::Overflow)
        }
    }
}

/// The mathematical factorial.
pub open spec fn fact_nat(n: int) -> int
    decreases n,
{
    if n <= 1 {
        1
    } else {
        n * fact_nat(n - 1)
    }
}

/// Factorial: defined only for operands whose exact value is a nonnegative
/// integer; `20!` is the largest the engine can hold.
pub open spec fn sp_fact(a: (int, int)) -> Result<(int, int), EvalError> {
    if a.0 % a.1 != 0 {
        Err(EvalError::InvalidFactorial(rat_of(a)))
    } else {
        let m = a.0 / a.1;
        if m < 0 {
            Err(EvalError::InvalidFactorial(rat_of(a)))
        } else if m > 20 {
            Err(EvalError::Overflow)
        } else {
            Ok((fact_nat(m), 1))
        }
    }
}

/// An integer power computed by repeated multiplication, each step checked
/// against the engine's range.
pub open spec fn pow_chk(b: int, e: int) -> Result<int, EvalError>
    decreases e,
{
    if e <= 0 {
        Ok(1)
    } else {
        match pow_chk(b, e - 1) {
            Ok(v) => {
                let w = v * b;
                if fits(w) {
                    Ok(w)
                } else {
                    Err(EvalError::Overflow)
                }
            },
            Err(er) => Err(er),
        }
    }
}

/// `a` raised to the nonnegative integer exponent `e`, numerator and
/// denominator each raised separately. A base whose value is `0`, `1` or
/// `-1` in lowest terms is handled directly, so exponents of any size are
/// accepted there; any other base overflows past exponent `126`.
pub open spec fn sp_pow_rat(a: (int, int), e: int) -> Result<(int, int), EvalError> {
    if a.1 == 1 && -1 <= a.0 <= 1 {
        if a.0 == 1 {
            Ok((1, 1))
        } else if a.0 == 0 {
            if e == 0 {
                Ok((1, 1))
            } else {
                Ok((0, 1))
            }
        } else {
            if e % 2 == 0 {
                Ok((1, 1))
            } else {
                Ok((-1, 1))
            }
        }
    } else if e > 126 {
        Err(EvalError::Overflow)
    } else {
        match pow_chk(a.0, e) {
            Ok(pn) => match pow_chk(a.1, e) {
                Ok(pd) => Ok((pn, pd)),
                Err(er) => Err(er),
            },
            Err(er) => Err(er),
        }
    }
}

/// Exponentiation: the exponent's exact value must be an integer (a
/// fractional exponent has no representable exact result); a negative
/// exponent inverts the base first, which fails for a zero base.
pub open spec fn sp_exp(a: (int, int), b: (int, int)) -> Result<(int, int), EvalError> {
    if b.0 % b.1 != 0 {
        Err(EvalError::InvalidExponent(rat_of(b)))
    } else {
        let e = b.0 / b.1;
        if e >= 0 {
            sp_pow_rat(a, e)
        } else {
            if a.0 == 0 {
                Err(EvalError::InvalidExponent(rat_of(b)))
            } else {
                let n1 = if a.0 < 0 {
                    -a.1
                } else {
                    a.1
                };
                let d1 = if a.0 < 0 {
                    -a.0
                } else {
                    a.0
                };
                sp_pow_rat((n1, d1), -e)
            }
        }
    }
}

/// The result of one binary operator on two operand values. (`FACT` is
/// unary and cannot reach this table through a well-formed tree.)
pub open spec fn sp_apply(op: Operator, a: (int, int), b: (int, int)) -> Result<
    (int, int),
    EvalError,
> {
    match op {
        Operator::ADD => sp_add(a, b),
        Operator::SUB => sp_sub(a, b),
        Operator::MULT => sp_mul(a, b),
        Operator::DIV => sp_div(a, b),
        Operator::IDIV => sp_idiv(a, b),
        Operator::EXP => sp_exp(a, b),
        Operator::FACT => Err(EvalError::InvalidFactorial(rat_of(a))),
    }
}

/// The exact value of a tree, or the first failure met walking it left to
/// right, depth first.
pub open spec fn spec_eval(e: Expr) -> Result<(int, int), EvalError>
    decreases e,
{
    match e {
        Expr::Literal(r) => Ok(qv(r)),
        Expr::Binary(l, op, r) => match spec_eval(*l) {
            Err(er) => Err(er),
            Ok(a) => match spec_eval(*r) {
                Err(er) => Err(er),
                Ok(b) => sp_apply(op, a, b),
            },
        },
        Expr::Unary(x, _op) => match spec_eval(*x) {
            Err(er) => Err(er),
            Ok(a) => sp_fact(a),
        },
    }
}

/// Division by zero fails deterministically: whenever the divisor of a
/// division or floor-division node evaluates to exactly zero (and the left
/// operand evaluates at all), the node evaluates to
/// `EvalError::DivisionByZero` — never to an infinite or undefined value.
pub proof fn lemma_division_by_zero_deterministic(l: Expr, r: Expr, op: Operator)
    requires
        op == Operator::DIV || op == Operator::IDIV,
        spec_eval(l) is Ok,
        spec_eval(r) matches Ok(b) && b.0 == 0,
    ensures
        spec_eval(Expr::Binary(Box::new(l), op, Box::new(r))) == Err::<(int, int), EvalError>(
            EvalError::DivisionByZero,
        ),
{
}

/// Factorial of a non-integral or negative operand fails: whenever a
/// factorial node's operand evaluates to a value that is not a nonnegative
/// integer, the node evaluates to `EvalError::InvalidFactorial` carrying
/// that operand.
pub proof fn lemma_factorial_rejects_non_integers(x: Expr, a: (int, int))
    requires
        spec_eval(x) == Ok::<(int, int), EvalError>(a),
        a.1 >= 1,
        a.0 % a.1 != 0 || a.0 < 0,
    ensures
        spec_eval(Expr::Unary(Box::new(x), Operator::FACT)) == Err::<(int, int), EvalError>(
            EvalError::InvalidFactorial(rat_of(a)),
        ),
{
    if a.0 % a.1 == 0 {
        lemma_fundamental_div_mod(a.0, a.1);
        vstd::arithmetic::div_mod::lemma_mod_bound(a.0, a.1);
        let m = a.0 / a.1;
        assert(m < 0) by (nonlinear_arith)
            requires
                a.0 == a.1 * m + a.0 % a.1,
                0 <= a.0 % a.1,
                a.0 < 0,
                a.1 >= 1,
        ;
    }
}

/// A product of two positive numbers is positive.
proof fn lemma_mul_pos(a: int, b: int)
    by (nonlinear_arith)
    requires
        a >= 1,
        b >= 1,
    ensures
        a * b >= 1,
{
}

/// Floor division of `p` by a positive `q`, using only nonnegative machine
/// division. Relies on the Euclidean reading of `/` in specifications,
/// which floors for a positive divisor.
fn floor_div(p: i128, q: i128) -> (t: i128)
    requires
        1 <= q,
        -0x4000_0000_0000_0000_0000_0000_0000_0000 <= p
            <= 0x4000_0000_0000_0000_0000_0000_0000_0000 - 1,
    ensures
        t == p as int / q as int,
        p >= 0 ==> 0 <= t <= p,
        p < 0 ==> p <= t <= 0,
{
    proof {
        lemma_fundamental_div_mod(p as int, q as int);
    }
    if p >= 0 {
        let t = p / q;
        proof {
            let ti = p as int / q as int;
            let r = p as int % q as int;
            assert(0 <= ti <= p) by (nonlinear_arith)
                requires
                    p as int == q as int * ti + r,
                    0 <= r < q,
                    1 <= q,
                    p >= 0,
            ;
        }
        t
    } else {
        let m = -p;
        let t0 = m / q;
        let r0 = m % q;
        proof {
            lemma_fundamental_div_mod(m as int, q as int);
            let t0i = m as int / q as int;
            let r0i = m as int % q as int;
            assert(0 <= t0i <= m) by (nonlinear_arith)
                requires
                    m as int == q as int * t0i + r0i,
                    0 <= r0i < q,
                    1 <= q,
                    m >= 0,
            ;
            if r0i == 0 {
                assert(p as int == (-t0i) * q as int + 0) by (nonlinear_arith)
                    requires
                        m as int == q as int * t0i + r0i,
                        r0i == 0,
                        p as int == -(m as int),
                ;
                lemma_fundamental_div_mod_converse(p as int, q as int, -t0i, 0);
            } else {
                assert(p as int == (-t0i - 1) * q as int + (q as int - r0i)) by (nonlinear_arith)
                    requires
                        m as int == q as int * t0i + r0i,
                        p as int == -(m as int),
                ;
                lemma_fundamental_div_mod_converse(p as int, q as int, -t0i - 1, q as int - r0i);
            }
            vstd::arithmetic::div_mod::lemma_mod_bound(p as int, q as int);
            assert(p as int <= p as int / q as int <= 0) by (nonlinear_arith)
                requires
                    p as int == q as int * (p as int / q as int) + (p as int % q as int),
                    0 <= (p as int % q as int),
                    (p as int % q as int) < (q as int),
                    1 <= q,
                    p < 0,
            ;
        }
        if r0 == 0 {
            -t0
        } else {
            -t0 - 1
        }
    }
}

/// The result of an executable step, seen as the spec model's pair.
pub open spec fn lift_q(r: Result<Rat, EvalError>) -> Result<(int, int), EvalError> {
    match r {
        Ok(q) => Ok(qv(q)),
        Err(e) => Err(e),
    }
}

fn fits_i128(x: i128) -> (r: bool)
    ensures
        r == fits(x as int),
{
    -(i64::MAX as i128) <= x && x <= i64::MAX as i128
}

/// A failed power stays failed at any higher exponent.
proof fn lemma_pow_chk_err_mono(b: int, e1: int, e2: int)
    requires
        0 <= e1 <= e2,
        pow_chk(b, e1) is Err,
    ensures
        pow_chk(b, e2) == pow_chk(b, e1),
    decreases e2 - e1,
{
    if e2 > e1 {
        lemma_pow_chk_err_mono(b, e1, e2 - 1);
    }
}

/// Powers of a positive base stay positive.
proof fn lemma_pow_chk_pos(b: int, e: int)
    requires
        b >= 1,
    ensures
        pow_chk(b, e) matches Ok(v) ==> v >= 1,
    decreases e,
{
    if e > 0 {
        lemma_pow_chk_pos(b, e - 1);
        if let Ok(v) = pow_chk(b, e - 1) {
            lemma_mul_pos(v, b);
        }
    }
}

fn pow_checked(base: i64, e: i128) -> (r: Result<i64, EvalError>)
    requires
        0 <= e <= 126,
        -i64::MAX <= base,
    ensures
        match r {
            Ok(v) => pow_chk(base as int, e as int) == Ok::<int, EvalError>(v as int) && -i64::MAX
                <= v,
            Err(er) => pow_chk(base as int, e as int) == Err::<int, EvalError>(er),
        },
{
    let mut acc: i64 = 1;
    let mut k: i128 = 0;
    while k < e
        invariant
            0 <= k <= e <= 126,
            -i64::MAX <= base,
            pow_chk(base as int, k as int) == Ok::<int, EvalError>(acc as int),
            -i64::MAX <= acc,
        decreases e - k,
    {
        proof {
            lemma_mul_bound(
                acc as int,
                base as int,
                0x7fff_ffff_ffff_ffff,
                0x7fff_ffff_ffff_ffff,
            );
        }
        let w: i128 = (acc as i128) * (base as i128);
        proof {
            assert(pow_chk(base as int, k as int + 1) == if fits(acc as int * base as int) {
                Ok::<int, EvalError>(acc as int * base as int)
            } else {
                Err::<int, EvalError>(EvalError::Overflow)
            });
        }
        if !fits_i128(w) {
            proof {
                lemma_pow_chk_err_mono(base as int, k as int + 1, e as int);
            }
            return Err(EvalError::Overflow);
        }
        acc = w as i64;
        k = k + 1;
    }
    Ok(acc)
}

fn pow_rat(a: Rat, e: i128) -> (r: Result<Rat, EvalError>)
    requires
        a.wf(),
        0 <= e,
    ensures
        lift_q(r) == sp_pow_rat(qv(a), e as int),
        r matches Ok(q) ==> q.wf(),
{
    if a.den == 1 && -1 <= a.num && a.num <= 1 {
        if a.num == 1 {
            Ok(Rat { num: 1, den: 1 })
        } else if a.num == 0 {
            if e == 0 {
                Ok(Rat { num: 1, den: 1 })
            } else {
                Ok(Rat { num: 0, den: 1 })
            }
        } else {
            if e % 2 == 0 {
                Ok(Rat { num: 1, den: 1 })
            } else {
                Ok(Rat { num: -1, den: 1 })
            }
        }
    } else if e > 126 {
        Err(EvalError::Overflow)
    } else {
        match pow_checked(a.num, e) {
            Err(er) => Err(er),
            Ok(pn) => match pow_checked(a.den, e) {
                Err(er) => Err(er),
                Ok(pd) => {
                    proof {
                        lemma_pow_chk_pos(a.den as int, e as int);
                    }
                    Ok(Rat { num: pn, den: pd })
                },
            },
        }
    }
}

/// Division and remainder of `p` by the positive `q`, in the Euclidean
/// reading the specifications use.
fn div_rem(p: i128, q: i128) -> (r: (i128, i128))
    requires
        1 <= q <= i64::MAX,
        -i64::MAX <= p <= i64::MAX,
    ensures
        r.0 == p as int / q as int,
        r.1 == p as int % q as int,
        -i64::MAX <= r.0 <= i64::MAX,
{
    let t = floor_div(p, q);
    proof {
        lemma_fundamental_div_mod(p as int, q as int);
        lemma_mul_bound(q as int, t as int, 0x7fff_ffff_ffff_ffff, 0x7fff_ffff_ffff_ffff);
    }
    let rem = p - q * t;
    (t, rem)
}

fn fact_rat(a: Rat) -> (r: Result<Rat, EvalError>)
    requires
        a.wf(),
    ensures
        lift_q(r) == sp_fact(qv(a)),
        r matches Ok(q) ==> q.wf(),
{
    proof {
        assert(rat_of(qv(a)) == a);
    }
    let (t, rem) = div_rem(a.num as i128, a.den as i128);
    if rem != 0 {
        Err(EvalError::InvalidFactorial(a))
    } else if t < 0 {
        Err(EvalError::InvalidFactorial(a))
    } else if t > 20 {
        Err(EvalError::Overflow)
    } else {
        let m: i64 = t as i64;
        let mut acc: i64 = 1;
        let mut k: i64 = 2;
        proof {
            lemma_fact_value();
        }
        while k <= m
            invariant
                2 <= k,
                k <= m + 1 || k == 2,
                0 <= m <= 20,
                acc == fact_nat(k - 1),
                fact_nat(20) == 2432902008176640000,
            decreases m + 1 - k,
        {
            proof {
                lemma_fact_pos(k - 1);
                assert(fact_nat(k as int) == k * fact_nat(k - 1));
                lemma_fact_mono(k as int, 20);
                lemma_fact_pos(k as int);
                assert(acc * k == fact_nat(k as int)) by (nonlinear_arith)
                    requires
                        acc == fact_nat(k - 1),
                        fact_nat(k as int) == k * fact_nat(k - 1),
                ;
                assert(1 <= acc * k <= 2432902008176640000);
            }
            acc = acc * k;
            k = k + 1;
        }
        proof {
            lemma_fact_pos(m as int);
            if m <= 1 {
                assert(fact_nat(m as int) == 1);
            }
        }
        Ok(Rat { num: acc, den: 1 })
    }
}

/// `20!`, the largest factorial in range.
proof fn lemma_fact_value()
    ensures
        fact_nat(20) == 2432902008176640000,
{
    reveal_with_fuel(fact_nat, 21);
}

proof fn lemma_fact_pos(n: int)
    ensures
        fact_nat(n) >= 1,
    decreases n,
{
    if n > 1 {
        lemma_fact_pos(n - 1);
        lemma_mul_pos(n, fact_nat(n - 1));
    }
}

proof fn lemma_fact_mono(j: int, n: int)
    requires
        j <= n,
    ensures
        fact_nat(j) <= fact_nat(n),
    decreases n - j,
{
    if j < n {
        lemma_fact_mono(j, n - 1);
        if n > 1 {
            lemma_fact_pos(n - 1);
            assert(fact_nat(n - 1) <= n * fact_nat(n - 1)) by (nonlinear_arith)
                requires
                    n >= 2,
                    fact_nat(n - 1) >= 1,
            ;
        }
    }
}

fn exp_rat(a: Rat, b: Rat) -> (r: Result<Rat, EvalError>)
    requires
        a.wf(),
        b.wf(),
    ensures
        lift_q(r) == sp_exp(qv(a), qv(b)),
        r matches Ok(q) ==> q.wf(),
{
    proof {
        assert(rat_of(qv(b)) == b);
    }
    let (t, rem) = div_rem(b.num as i128, b.den as i128);
    if rem != 0 {
        Err(EvalError::InvalidExponent(b))
    } else if t >= 0 {
        pow_rat(a, t)
    } else {
        if a.num == 0 {
            Err(EvalError::InvalidExponent(b))
        } else {
            let inv = if a.num < 0 {
                Rat { num: -a.den, den: -a.num }
            } else {
                Rat { num: a.den, den: a.num }
            };
            pow_rat(inv, -t)
        }
    }
}

fn apply_op(op: Operator, a: Rat, b: Rat) -> (r: Result<Rat, EvalError>)
    requires
        a.wf(),
        b.wf(),
    ensures
        lift_q(r) == sp_apply(op, qv(a), qv(b)),
        r matches Ok(q) ==> q.wf(),
{
    proof {
        lemma_mul_bound(a.num as int, b.den as int, 0x7fff_ffff_ffff_ffff, 0x7fff_ffff_ffff_ffff);
        lemma_mul_bound(b.num as int, a.den as int, 0x7fff_ffff_ffff_ffff, 0x7fff_ffff_ffff_ffff);
        lemma_mul_bound(a.num as int, b.num as int, 0x7fff_ffff_ffff_ffff, 0x7fff_ffff_ffff_ffff);
        lemma_mul_bound(a.den as int, b.den as int, 0x7fff_ffff_ffff_ffff, 0x7fff_ffff_ffff_ffff);
        lemma_mul_bound(a.den as int, b.num as int, 0x7fff_ffff_ffff_ffff, 0x7fff_ffff_ffff_ffff);
        lemma_mul_pos(a.den as int, b.den as int);
    }
    match op {
        Operator::ADD => {
            let n: i128 = (a.num as i128) * (b.den as i128) + (b.num as i128) * (a.den as i128);
            let d: i128 = (a.den as i128) * (b.den as i128);
            if fits_i128(n) && fits_i128(d) {
                Ok(Rat { num: n as i64, den: d as i64 })
            } else {
                Err(EvalError::Overflow)
            }
        },
        Operator::SUB => {
            let n: i128 = (a.num as i128) * (b.den as i128) - (b.num as i128) * (a.den as i128);
            let d: i128 = (a.den as i128) * (b.den as i128);
            if fits_i128(n) && fits_i128(d) {
                Ok(Rat { num: n as i64, den: d as i64 })
            } else {
                Err(EvalError::Overflow)
            }
        },
        Operator::MULT => {
            let n: i128 = (a.num as i128) * (b.num as i128);
            let d: i128 = (a.den as i128) * (b.den as i128);
            if fits_i128(n) && fits_i128(d) {
                Ok(Rat { num: n as i64, den: d as i64 })
            } else {
                Err(EvalError::Overflow)
            }
        },
        Operator::DIV => {
            if b.num == 0 {
                Err(EvalError::DivisionByZero)
            } else {
                let n0: i128 = (a.num as i128) * (b.den as i128);
                let d0: i128 = (a.den as i128) * (b.num as i128);
                proof {
                    lemma_div_sign(a.den as int, b.num as int);
                }
                let n: i128 = if d0 < 0 {
                    -n0
                } else {
                    n0
                };
                let d: i128 = if d0 < 0 {
                    -d0
                } else {
                    d0
                };
                if fits_i128(n) && fits_i128(d) {
                    Ok(Rat { num: n as i64, den: d as i64 })
                } else {
                    Err(EvalError::Overflow)
                }
            }
        },
        Operator::IDIV => {
            if b.num == 0 {
                Err(EvalError::DivisionByZero)
            } else {
                let p0: i128 = (a.num as i128) * (b.den as i128);
                let q0: i128 = (a.den as i128) * (b.num as i128);
                proof {
                    lemma_div_sign(a.den as int, b.num as int);
                }
                let p: i128 = if q0 < 0 {
                    -p0
                } else {
                    p0
                };
                let q: i128 = if q0 < 0 {
                    -q0
                } else {
                    q0
                };
                let t = floor_div(p, q);
                if fits_i128(t) {
                    Ok(Rat { num: t as i64, den: 1 })
                } else {
                    Err(EvalError::Overflow)
                }
            }
        },
        Operator::EXP => exp_rat(a, b),
        Operator::FACT => {
            proof {
                assert(rat_of(qv(a)) == a);
            }
            Err(EvalError::InvalidFactorial(a))
        },
    }
}

/// A positive number times a nonzero one is nonzero, with the product's
/// sign following the second factor's.
proof fn lemma_div_sign(d: int, x: int)
    by (nonlinear_arith)
    requires
        d >= 1,
        x != 0,
    ensures
        x > 0 ==> d * x >= 1,
        x < 0 ==> d * x <= -1,
{
}

/// Evaluates a well-formed tree to its exact rational value, or to the
/// first failure found walking it left to right.
pub fn evaluate(e: &Expr) -> (r: Result<Rat, EvalError>)
    requires
        e.wf(),
    ensures
        lift_q(r) == spec_eval(*e),
        r matches Ok(q) ==> q.wf(),
    decreases *e,
{
    match e {
        Expr::Literal(r0) => Ok(*r0),
        Expr::Binary(l, op, r0) => {
            match evaluate(&**l) {
                Err(er) => Err(er),
                Ok(a) => match evaluate(&**r0) {
                    Err(er) => Err(er),
                    Ok(b) => apply_op(*op, a, b),
                },
            }
        },
        Expr::Unary(x, _op) => {
            match evaluate(&**x) {
                Err(er) => Err(er),
                Ok(a) => fact_rat(a),
            }
        },
    }
}

} // verus!
