//! The error taxonomy: structural failures found while tokenizing or
//! parsing (`ParseError`) and semantic failures found while evaluating
//! (`EvalError`), unified for the caller as `EvaluationError`.

use vstd::prelude::*;

verus! {

/// What went wrong while turning text into a tree.
#[derive(Clone, Copy, Debug, PartialEq, Eq, Structural)]
pub enum ParseErrorKind {
    /// The input held no tokens at all.
    EmptyInput,
    /// A character that starts neither a number nor an operator symbol, or a
    /// decimal point with no digit after it.
    UnexpectedChar,
    /// A numeric literal too large for the engine's exact arithmetic.
    NumberTooLarge,
    /// A token that fits no grammatical position: a misplaced operator, a
    /// missing operand, an empty parenthesis pair, or leftover tokens after
    /// the expression ended.
    UnexpectedToken,
    /// A `(` with no matching `)`.
    UnmatchedParen,
    /// A chained postfix factorial (`5!!`), which is rejected as ambiguous.
    InvalidFactorial,
    /// Nesting beyond the enforced maximum depth.
    TooDeeplyNested,
}

/// A parse-time failure with the position at which it was found: a character
/// index for `UnexpectedChar` and `NumberTooLarge`, a token index otherwise.
#[derive(Clone, Copy, Debug, PartialEq, Eq, Structural)]
pub struct ParseError {
    pub kind: ParseErrorKind,
    pub pos: usize,
}

/// What went wrong while evaluating a well-formed tree. The factorial and
/// exponent failures carry the offending operand's value.
#[derive(Clone, Copy, Debug, PartialEq, Eq, Structural)]
pub enum EvalError {
    /// A divisor evaluated to exactly zero.
    DivisionByZero,
    /// A factorial of a negative or non-integral operand.
    InvalidFactorial(crate::ast::Rat),
    /// An exponent whose exact result the engine cannot represent: a
    /// fractional exponent, or a negative exponent of zero.
    InvalidExponent(crate::ast::Rat),
    /// An exact intermediate or final value outside the engine's range.
    Overflow,
}

/// Either phase's failure, as surfaced by [`crate::evaluate_expression`].
#[derive(Clone, Copy, Debug, PartialEq, Eq, Structural)]
pub enum EvaluationError {
    Parse(ParseError),
    Eval(EvalError),
}

impl EvalError {
    /// A human-readable description of the failure.
    pub fn detail(&self) -> (r: String)
        ensures
            r@ == self.spec_detail(),
    {
        match self {
            EvalError::DivisionByZero => String::from_str("division by zero"),
            EvalError::InvalidFactorial(_) => String::from_str(
                "factorial of a negative or non-integral value",
            ),
            EvalError::InvalidExponent(_) => String::from_str(
                "exponent result is not representable",
            ),
            EvalError::Overflow => String::from_str("value out of range"),
        }
    }

    pub open spec fn spec_detail(&self) -> Seq<char> {
        match self {
            EvalError::DivisionByZero => "division by zero"@,
            EvalError::InvalidFactorial(_) => "factorial of a negative or non-integral value"@,
            EvalError::InvalidExponent(_) => "exponent result is not representable"@,
            EvalError::Overflow => "value out of range"@,
        }
    }
}

impl ParseError {
    /// A human-readable description of the failure.
    pub fn detail(&self) -> (r: String)
        ensures
            r@ == self.spec_detail(),
    {
        match self.kind {
            ParseErrorKind::EmptyInput => String::from_str("empty input"),
            ParseErrorKind::UnexpectedChar => String::from_str("unrecognized character"),
            ParseErrorKind::NumberTooLarge => String::from_str("numeric literal out of range"),
            ParseErrorKind::UnexpectedToken => String::from_str("token out of place"),
            ParseErrorKind::UnmatchedParen => String::from_str("unmatched parenthesis"),
            ParseErrorKind::InvalidFactorial => String::from_str("chained factorial"),
            ParseErrorKind::TooDeeplyNested => String::from_str("expression nested too deeply"),
        }
    }

    pub open spec fn spec_detail(&self) -> Seq<char> {
        match self.kind {
            ParseErrorKind::EmptyInput => "empty input"@,
            ParseErrorKind::UnexpectedChar => "unrecognized character"@,
            ParseErrorKind::NumberTooLarge => "numeric literal out of range"@,
            ParseErrorKind::UnexpectedToken => "token out of place"@,
            ParseErrorKind::UnmatchedParen => "unmatched parenthesis"@,
            ParseErrorKind::InvalidFactorial => "chained factorial"@,
            ParseErrorKind::TooDeeplyNested => "expression nested too deeply"@,
        }
    }
}

} // verus!
