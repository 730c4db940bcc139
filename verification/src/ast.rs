//! The abstract syntax tree: expression nodes over exact rational literals.
//!
//! The engine computes in exact rational arithmetic: a number is a fraction
//! `num / den` with a positive denominator. Decimal source literals such as
//! `2.5` become fractions with a power-of-ten denominator (`25 / 10`).

use crate::ops::Operator;
use vstd::prelude::*;

verus! {

/// Bounds on a product follow from bounds on its factors.
pub proof fn lemma_mul_bound(a: int, b: int, m: int, n: int)
    by (nonlinear_arith)
    requires
        -m <= a <= m,
        -n <= b <= n,
        0 <= m,
        0 <= n,
    ensures
        -(m * n) <= a * b <= m * n,
{
}

/// An exact rational number `num / den`. Well-formed values keep `den >= 1`
/// and `num > i64::MIN`, so every well-formed value can be negated.
#[derive(Clone, Copy, Debug, PartialEq, Eq, Structural)]
pub struct Rat {
    pub num: i64,
    pub den: i64,
}

impl Rat {
    pub open spec fn wf(self) -> bool {
        1 <= self.den && -i64::MAX <= self.num
    }

    /// The rational with this integer value.
    pub fn from_int(n: i64) -> (r: Rat)
        requires
            n > i64::MIN,
        ensures
            r.num == n && r.den == 1,
            r.wf(),
    {
        Rat { num: n, den: 1 }
    }

    /// Two rationals denote the same number when they cross-multiply equally.
    pub open spec fn same_value(self, other: Rat) -> bool {
        self.num * other.den == other.num * self.den
    }

    /// Exact comparison of the denoted numbers, independent of representation.
    pub fn eq_value(self, other: Rat) -> (r: bool)
        ensures
            r == self.same_value(other),
    {
        proof {
            lemma_mul_bound(
                self.num as int,
                other.den as int,
                0x8000_0000_0000_0000,
                0x8000_0000_0000_0000,
            );
            lemma_mul_bound(
                other.num as int,
                self.den as int,
                0x8000_0000_0000_0000,
                0x8000_0000_0000_0000,
            );
        }
        let a: i128 = (self.num as i128) * (other.den as i128);
        let b: i128 = (other.num as i128) * (self.den as i128);
        a == b
    }
}

/// An expression node. A strict tree: every node exclusively owns its
/// children.
///
/// Well-formed trees keep every `Binary` node's operator binary and every
/// `Unary` node's operator `FACT`; see [`Expr::wf`].
#[derive(Debug, PartialEq)]
pub enum Expr {
    /// A number literal.
    Literal(Rat),
    /// A binary operation: left operand, operator, right operand.
    Binary(Box<Expr>, Operator, Box<Expr>),
    /// A unary postfix operation (factorial): operand, operator.
    Unary(Box<Expr>, Operator),
}

impl Expr {
    /// Structural well-formedness: operator arities match the node shapes and
    /// every literal is a well-formed rational.
    pub open spec fn wf(self) -> bool
        decreases self,
    {
        match self {
            Expr::Literal(r) => r.wf(),
            Expr::Binary(l, op, r) => crate::ops::spec_is_binary(op) && l.wf() && r.wf(),
            Expr::Unary(x, op) => op == Operator::FACT && x.wf(),
        }
    }

    /// The parser depth budget a fully parenthesized printing of this tree
    /// consumes: one level per pair of parentheses, and one more for the
    /// right-hand side of a binary node.
    pub open spec fn pdepth(self) -> int
        decreases self,
    {
        match self {
            Expr::Literal(_) => 0,
            Expr::Binary(l, _op, r) => 1 + vstd::math::max(l.pdepth(), 1 + r.pdepth()),
            Expr::Unary(x, _op) => 1 + x.pdepth(),
        }
    }

    /// The literals the parser itself produces: nonnegative numerators with
    /// power-of-ten denominators, exactly what decimal source text denotes.
    /// Such trees print back to text that re-tokenizes losslessly.
    pub open spec fn printable(self) -> bool
        decreases self,
    {
        match self {
            Expr::Literal(r) => r.num >= 0 && crate::token::is_pow10(r.den as int),
            Expr::Binary(l, _op, r) => l.printable() && r.printable(),
            Expr::Unary(x, _op) => x.printable(),
        }
    }

    /// Grafts two trees under a fresh binary node, this tree on the left.
    pub fn reparent(self, right: Expr, op: Operator) -> (r: Expr)
        ensures
            r == Expr::Binary(Box::new(self), op, Box::new(right)),
    {
        Expr::Binary(Box::new(self), op, Box::new(right))
    }
}

} // verus!
