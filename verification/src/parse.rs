//! The parser: precedence-climbing recursive descent over the token
//! sequence, producing a single root expression node.
//!
//! A primary is a number, a `-`-prefixed primary (read as `0 - x`), or a
//! parenthesized sub-expression; one postfix `!` may follow a primary
//! (chained `!!` is rejected). After a primary, binary operators at or above
//! the current minimum precedence are consumed, climbing for their
//! right-hand sides: strictly higher precedence for left-associative
//! operators, equal precedence for right-associative ones. Parentheses,
//! `-` prefixes and right-associative climbs each draw on a depth budget,
//! so pathological nesting fails predictably instead of exhausting the
//! stack.

use crate::ast::{Expr, Rat};
use crate::errors::{ParseError, ParseErrorKind};
use crate::ops::{
    spec_associativity, spec_is_binary, spec_precedence, Assoc, Operator,
};
use crate::token::{toks_wf, Token};
use vstd::prelude::*;

verus! {

/// The enforced maximum nesting depth.
pub const MAX_DEPTH: usize = 256;

/// The least precedence allowed on the right of `op`: one more than its own
/// for left-associative operators (stopping equal-precedence chains), its
/// own for right-associative ones (allowing them).
pub open spec fn next_min_prec(op: Operator) -> int {
    if spec_associativity(op) == Assoc::RightAssoc {
        spec_precedence(op)
    } else {
        spec_precedence(op) + 1
    }
}

/// The index a successful sub-parse resumed at, clamped into `(i, len]`.
/// Sub-parses always consume at least one token, so the clamp is the
/// identity on real results; it keeps the recursion visibly well-founded.
pub open spec fn clamp_after(i: int, j: int, len: int) -> int {
    if i < j <= len {
        j
    } else if i < len {
        i + 1
    } else {
        len
    }
}

/// A `0 - x` node, the reading of the unary minus prefix.
pub open spec fn neg_node(x: Expr) -> Expr {
    Expr::Binary(
        Box::new(Expr::Literal(Rat { num: 0, den: 1 })),
        Operator::SUB,
        Box::new(x),
    )
}

/// Parses one primary starting at `i`: a number, a `-`-prefixed primary, or
/// a parenthesized sub-expression. On success: the node and the index just
/// past it.
pub open spec fn spec_parse_primary(toks: Seq<Token>, i: int, d: int) -> Result<
    (Expr, int),
    ParseError,
>
    decreases toks.len() - i, 0int,
{
    if !(0 <= i < toks.len()) {
        Err(ParseError { kind: ParseErrorKind::UnexpectedToken, pos: i as usize })
    } else {
        match toks[i] {
            Token::Num(r) => Ok((Expr::Literal(r), i + 1)),
            Token::OpTok(op) => if op == Operator::SUB {
                if d <= 0 {
                    Err(ParseError { kind: ParseErrorKind::TooDeeplyNested, pos: i as usize })
                } else {
                    match spec_parse_primary(toks, i + 1, d - 1) {
                        Ok((x, j)) => Ok((neg_node(x), j)),
                        Err(e) => Err(e),
                    }
                }
            } else {
                Err(ParseError { kind: ParseErrorKind::UnexpectedToken, pos: i as usize })
            },
            Token::LParen => if d <= 0 {
                Err(ParseError { kind: ParseErrorKind::TooDeeplyNested, pos: i as usize })
            } else {
                match spec_parse_expr(toks, i + 1, 0, d - 1) {
                    Err(e) => Err(e),
                    Ok((x, j)) => if 0 <= j < toks.len() && toks[j] == Token::RParen {
                        Ok((x, j + 1))
                    } else {
                        Err(ParseError { kind: ParseErrorKind::UnmatchedParen, pos: i as usize })
                    },
                }
            },
            Token::RParen => Err(
                ParseError { kind: ParseErrorKind::UnexpectedToken, pos: i as usize },
            ),
        }
    }
}

/// Parses an expression starting at `i`, consuming binary operators whose
/// precedence is at least `min`.
pub open spec fn spec_parse_expr(toks: Seq<Token>, i: int, min: int, d: int) -> Result<
    (Expr, int),
    ParseError,
>
    decreases toks.len() - i, 1int,
{
    if !(0 <= i < toks.len()) {
        Err(ParseError { kind: ParseErrorKind::UnexpectedToken, pos: i as usize })
    } else {
        match spec_parse_primary(toks, i, d) {
            Err(e) => Err(e),
            Ok((e0, j_raw)) => {
                let j = clamp_after(i, j_raw, toks.len() as int);
                if j < toks.len() && toks[j] == Token::OpTok(Operator::FACT) {
                    if j + 1 < toks.len() && toks[j + 1] == Token::OpTok(Operator::FACT) {
                        Err(
                            ParseError {
                                kind: ParseErrorKind::InvalidFactorial,
                                pos: (j + 1) as usize,
                            },
                        )
                    } else {
                        spec_parse_loop(
                            toks,
                            j + 1,
                            min,
                            Expr::Unary(Box::new(e0), Operator::FACT),
                            d,
                        )
                    }
                } else {
                    spec_parse_loop(toks, j, min, e0, d)
                }
            },
        }
    }
}

/// The climbing loop: with `left` parsed and the scan at `j`, consumes
/// `<binary op> <climbed right-hand side>` while the operator's precedence
/// is at least `min`, folding into a left-leaning tree.
pub open spec fn spec_parse_loop(toks: Seq<Token>, j: int, min: int, left: Expr, d: int) -> Result<
    (Expr, int),
    ParseError,
>
    decreases toks.len() - j, 2int,
{
    if !(0 <= j <= toks.len()) {
        Err(ParseError { kind: ParseErrorKind::UnexpectedToken, pos: 0 })
    } else if j < toks.len() && (toks[j] matches Token::OpTok(op) && spec_is_binary(op)
        && spec_precedence(op) >= min) {
        let op = toks[j]->OpTok_0;
        if spec_associativity(op) == Assoc::RightAssoc && d <= 0 {
            Err(ParseError { kind: ParseErrorKind::TooDeeplyNested, pos: j as usize })
        } else {
            let d2 = if spec_associativity(op) == Assoc::RightAssoc {
                d - 1
            } else {
                d
            };
            match spec_parse_expr(toks, j + 1, next_min_prec(op), d2) {
                Err(e) => Err(e),
                Ok((rhs, j2_raw)) => {
                    let j2 = clamp_after(j, j2_raw, toks.len() as int);
                    spec_parse_loop(
                        toks,
                        j2,
                        min,
                        Expr::Binary(Box::new(left), op, Box::new(rhs)),
                        d,
                    )
                },
            }
        }
    } else {
        Ok((left, j))
    }
}

/// Parses a whole token sequence: empty input fails, leftover tokens after
/// the top-level expression fail.
pub open spec fn spec_parse(toks: Seq<Token>) -> Result<Expr, ParseError> {
    if toks.len() == 0 {
        Err(ParseError { kind: ParseErrorKind::EmptyInput, pos: 0 })
    } else {
        match spec_parse_expr(toks, 0, 0, MAX_DEPTH as int) {
            Err(e) => Err(e),
            Ok((e0, j)) => if j == toks.len() {
                Ok(e0)
            } else {
                Err(ParseError { kind: ParseErrorKind::UnexpectedToken, pos: j as usize })
            },
        }
    }
}

/// A successful primary parse consumes at least one token and yields a
/// well-formed node.
pub proof fn lemma_primary_props(toks: Seq<Token>, i: int, d: int)
    requires
        0 <= i <= toks.len(),
        toks_wf(toks),
    ensures
        spec_parse_primary(toks, i, d) matches Ok(ej) ==> i < ej.1 <= toks.len() && ej.0.wf()
            && ej.0.printable(),
    decreases toks.len() - i, 0int,
{
    if i < toks.len() {
        match toks[i] {
            Token::Num(r) => {
                assert(crate::token::tok_wf(toks[i]));
                assert(Expr::Literal(r).wf());
                assert(Expr::Literal(r).printable());
            },
            Token::OpTok(op) => {
                if op == Operator::SUB && d > 0 {
                    lemma_primary_props(toks, i + 1, d - 1);
                    if let Ok((x, jj)) = spec_parse_primary(toks, i + 1, d - 1) {
                        assert(x.wf());
                        assert(Rat { num: 0, den: 1 }.wf());
                        assert(Expr::Literal(Rat { num: 0, den: 1 }).wf());
                        assert(neg_node(x).wf());
                        assert(crate::token::is_pow10(1));
                        assert(Expr::Literal(Rat { num: 0, den: 1 }).printable());
                        assert(neg_node(x).printable());
                    }
                }
            },
            Token::LParen => {
                if d > 0 {
                    lemma_expr_props(toks, i + 1, 0, d - 1);
                }
            },
            Token::RParen => {},
        }
    }
}

/// A successful expression parse consumes at least one token and yields a
/// well-formed node.
pub proof fn lemma_expr_props(toks: Seq<Token>, i: int, min: int, d: int)
    requires
        0 <= i <= toks.len(),
        toks_wf(toks),
    ensures
        spec_parse_expr(toks, i, min, d) matches Ok(ej) ==> i < ej.1 <= toks.len() && ej.0.wf()
            && ej.0.printable(),
    decreases toks.len() - i, 1int,
{
    lemma_primary_props(toks, i, d);
    match spec_parse_primary(toks, i, d) {
        Err(_) => {},
        Ok((e0, j_raw)) => {
            let j = clamp_after(i, j_raw, toks.len() as int);
            assert(j == j_raw);
            if j < toks.len() && toks[j] == Token::OpTok(Operator::FACT) {
                if !(j + 1 < toks.len() && toks[j + 1] == Token::OpTok(Operator::FACT)) {
                    lemma_loop_props(toks, j + 1, min, Expr::Unary(Box::new(e0), Operator::FACT), d);
                }
            } else {
                lemma_loop_props(toks, j, min, e0, d);
            }
        },
    }
}

/// The climbing loop never moves backwards and folds well-formed nodes.
pub proof fn lemma_loop_props(toks: Seq<Token>, j: int, min: int, left: Expr, d: int)
    requires
        0 <= j <= toks.len(),
        left.wf(),
        left.printable(),
        toks_wf(toks),
    ensures
        spec_parse_loop(toks, j, min, left, d) matches Ok(ej) ==> j <= ej.1 <= toks.len()
            && ej.0.wf() && ej.0.printable(),
    decreases toks.len() - j, 2int,
{
    if j < toks.len() && (toks[j] matches Token::OpTok(op) && spec_is_binary(op)
        && spec_precedence(op) >= min) {
        let op = toks[j]->OpTok_0;
        if !(spec_associativity(op) == Assoc::RightAssoc && d <= 0) {
            let d2 = if spec_associativity(op) == Assoc::RightAssoc {
                d - 1
            } else {
                d
            };
            lemma_expr_props(toks, j + 1, next_min_prec(op), d2);
            match spec_parse_expr(toks, j + 1, next_min_prec(op), d2) {
                Err(_) => {},
                Ok((rhs, j2_raw)) => {
                    let j2 = clamp_after(j, j2_raw, toks.len() as int);
                    assert(j2 == j2_raw);
                    lemma_loop_props(
                        toks,
                        j2,
                        min,
                        Expr::Binary(Box::new(left), op, Box::new(rhs)),
                        d,
                    );
                },
            }
        }
    }
}

fn parse_primary_at(toks: &Vec<Token>, i: usize, d: usize) -> (r: Result<
    (Expr, usize),
    ParseError,
>)
    requires
        i <= toks@.len(),
        toks_wf(toks@),
    ensures
        match r {
            Ok((e, j)) => spec_parse_primary(toks@, i as int, d as int) == Ok::<
                (Expr, int),
                ParseError,
            >((e, j as int)) && i < j <= toks@.len() && e.wf(),
            Err(er) => spec_parse_primary(toks@, i as int, d as int) == Err::<
                (Expr, int),
                ParseError,
            >(er),
        },
    decreases toks@.len() - i, 0int,
{
    if i >= toks.len() {
        return Err(ParseError { kind: ParseErrorKind::UnexpectedToken, pos: i });
    }
    match toks[i] {
        Token::Num(r) => {
            proof {
                assert(crate::token::tok_wf(toks@[i as int]));
            }
            Ok((Expr::Literal(r), i + 1))
        },
        Token::OpTok(op) => {
            if op == Operator::SUB {
                if d == 0 {
                    Err(ParseError { kind: ParseErrorKind::TooDeeplyNested, pos: i })
                } else {
                    match parse_primary_at(toks, i + 1, d - 1) {
                        Ok((x, j)) => {
                            let e = Expr::Binary(
                                Box::new(Expr::Literal(Rat { num: 0, den: 1 })),
                                Operator::SUB,
                                Box::new(x),
                            );
                            proof {
                                assert(e == neg_node(x));
                                assert(Expr::Literal(Rat { num: 0, den: 1 }).wf());
                            }
                            Ok((e, j))
                        },
                        Err(e) => Err(e),
                    }
                }
            } else {
                Err(ParseError { kind: ParseErrorKind::UnexpectedToken, pos: i })
            }
        },
        Token::LParen => {
            if d == 0 {
                Err(ParseError { kind: ParseErrorKind::TooDeeplyNested, pos: i })
            } else {
                match parse_expr_at(toks, i + 1, 0, d - 1) {
                    Err(e) => Err(e),
                    Ok((x, j)) => {
                        if j < toks.len() && toks[j] == Token::RParen {
                            Ok((x, j + 1))
                        } else {
                            Err(ParseError { kind: ParseErrorKind::UnmatchedParen, pos: i })
                        }
                    },
                }
            }
        },
        Token::RParen => Err(ParseError { kind: ParseErrorKind::UnexpectedToken, pos: i }),
    }
}

fn parse_expr_at(toks: &Vec<Token>, i: usize, min: u32, d: usize) -> (r: Result<
    (Expr, usize),
    ParseError,
>)
    requires
        i <= toks@.len(),
        toks_wf(toks@),
    ensures
        match r {
            Ok((e, j)) => spec_parse_expr(toks@, i as int, min as int, d as int) == Ok::<
                (Expr, int),
                ParseError,
            >((e, j as int)) && i < j <= toks@.len() && e.wf(),
            Err(er) => spec_parse_expr(toks@, i as int, min as int, d as int) == Err::<
                (Expr, int),
                ParseError,
            >(er),
        },
    decreases toks@.len() - i, 1int,
{
    if i >= toks.len() {
        return Err(ParseError { kind: ParseErrorKind::UnexpectedToken, pos: i });
    }
    let (e0, j0) = match parse_primary_at(toks, i, d) {
        Err(e) => {
            return Err(e);
        },
        Ok(ej) => ej,
    };
    proof {
        assert(clamp_after(i as int, j0 as int, toks@.len() as int) == j0 as int);
    }
    let mut cur: Expr;
    let mut jj: usize;
    if j0 < toks.len() && toks[j0] == Token::OpTok(Operator::FACT) {
        if j0 + 1 < toks.len() && toks[j0 + 1] == Token::OpTok(Operator::FACT) {
            return Err(ParseError { kind: ParseErrorKind::InvalidFactorial, pos: j0 + 1 });
        }
        cur = Expr::Unary(Box::new(e0), Operator::FACT);
        jj = j0 + 1;
    } else {
        cur = e0;
        jj = j0;
    }
    loop
        invariant
            i < jj <= toks@.len(),
            toks_wf(toks@),
            cur.wf(),
            spec_parse_expr(toks@, i as int, min as int, d as int) == spec_parse_loop(
                toks@,
                jj as int,
                min as int,
                cur,
                d as int,
            ),
        decreases toks@.len() - jj,
    {
        if jj >= toks.len() {
            proof {
                assert(spec_parse_loop(toks@, jj as int, min as int, cur, d as int) == Ok::<
                    (Expr, int),
                    ParseError,
                >((cur, jj as int)));
            }
            return Ok((cur, jj));
        }
        let op = match toks[jj] {
            Token::OpTok(op) => op,
            _ => {
                proof {
                    assert(spec_parse_loop(toks@, jj as int, min as int, cur, d as int) == Ok::<
                        (Expr, int),
                        ParseError,
                    >((cur, jj as int)));
                }
                return Ok((cur, jj));
            },
        };
        if !crate::ops::is_binary(op) || crate::ops::precedence(op) < min {
            proof {
                assert(spec_parse_loop(toks@, jj as int, min as int, cur, d as int) == Ok::<
                    (Expr, int),
                    ParseError,
                >((cur, jj as int)));
            }
            return Ok((cur, jj));
        }
        let right = crate::ops::associativity(op) == Assoc::RightAssoc;
        if right && d == 0 {
            return Err(ParseError { kind: ParseErrorKind::TooDeeplyNested, pos: jj });
        }
        let d2 = if right {
            d - 1
        } else {
            d
        };
        let next_min = if right {
            crate::ops::precedence(op)
        } else {
            crate::ops::precedence(op) + 1
        };
        match parse_expr_at(toks, jj + 1, next_min, d2) {
            Err(e) => {
                return Err(e);
            },
            Ok((rhs, j2)) => {
                proof {
                    assert(clamp_after(jj as int, j2 as int, toks@.len() as int) == j2 as int);
                }
                cur = Expr::Binary(Box::new(cur), op, Box::new(rhs));
                jj = j2;
            },
        }
    }
}

/// Parses a whole token sequence into its root node, or reports the first
/// structural failure with its token position.
pub fn parse(toks: &Vec<Token>) -> (r: Result<Expr, ParseError>)
    requires
        toks_wf(toks@),
    ensures
        match r {
            Ok(e) => spec_parse(toks@) == Ok::<Expr, ParseError>(e) && e.wf(),
            Err(er) => spec_parse(toks@) == Err::<Expr, ParseError>(er),
        },
{
    if toks.len() == 0 {
        return Err(ParseError { kind: ParseErrorKind::EmptyInput, pos: 0 });
    }
    match parse_expr_at(toks, 0, 0, MAX_DEPTH) {
        Err(e) => Err(e),
        Ok((e0, j)) => {
            if j == toks.len() {
                Ok(e0)
            } else {
                Err(ParseError { kind: ParseErrorKind::UnexpectedToken, pos: j })
            }
        },
    }
}

/// Whatever a successful whole parse returns is well-formed, with the
/// decimal literals the tokenizer produces.
pub proof fn lemma_parse_wf(toks: Seq<Token>)
    requires
        toks_wf(toks),
    ensures
        spec_parse(toks) matches Ok(e) ==> e.wf() && e.printable(),
{
    if toks.len() > 0 {
        lemma_expr_props(toks, 0, 0, MAX_DEPTH as int);
    }
}

} // verus!
