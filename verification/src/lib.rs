//! An arithmetic-expression engine: a tokenizer, a precedence-climbing
//! parser, and an exact-rational evaluator for infix expressions over the
//! operators `+ - * / // ^ !` with parenthesized sub-expressions.

pub mod ast;
pub mod errors;
pub mod eval;
pub mod ops;
pub mod parse;
pub mod token;

pub mod pretty;

use vstd::prelude::*;

verus! {

use crate::ast::Rat;
use crate::errors::EvaluationError;

/// The whole pipeline on a source string: tokenize, parse, evaluate.
pub open spec fn spec_evaluate(s: Seq<char>) -> Result<(int, int), EvaluationError> {
    match crate::token::spec_tokenize(s) {
        Err(pe) => Err(EvaluationError::Parse(pe)),
        Ok(ts) => match crate::parse::spec_parse(ts) {
            Err(pe) => Err(EvaluationError::Parse(pe)),
            Ok(e) => match crate::eval::spec_eval(e) {
                Err(ee) => Err(EvaluationError::Eval(ee)),
                Ok(q) => Ok(q),
            },
        },
    }
}

/// Evaluates an infix expression string to its exact rational value, or to
/// the first parse-time or evaluation-time failure.
pub fn evaluate_expression(input: &str) -> (r: Result<Rat, EvaluationError>)
    ensures
        match r {
            Ok(q) => spec_evaluate(input@) == Ok::<(int, int), EvaluationError>(
                crate::eval::qv(q),
            ) && q.wf(),
            Err(e) => spec_evaluate(input@) == Err::<(int, int), EvaluationError>(e),
        },
{
    match crate::token::tokenize(input) {
        Err(pe) => Err(EvaluationError::Parse(pe)),
        Ok(toks) => match crate::parse::parse(&toks) {
            Err(pe) => Err(EvaluationError::Parse(pe)),
            Ok(e) => match crate::eval::evaluate(&e) {
                Err(ee) => Err(EvaluationError::Eval(ee)),
                Ok(q) => Ok(q),
            },
        },
    }
}

} // verus!
