use expr_engine::ast::{Expr, Rat};
use expr_engine::errors::{EvalError, EvaluationError, ParseErrorKind};
use expr_engine::eval::evaluate;
use expr_engine::evaluate_expression;
use expr_engine::ops::{
    arity, associativity, op_to_str, operator_symbol, precedence, str_to_op, Arity, Assoc,
    Operator,
};
use expr_engine::parse::parse;
use expr_engine::pretty::{pretty_print, print_tokens};
use expr_engine::token::tokenize;

fn val(r: &Rat) -> f64 {
    (r.num as f64) / (r.den as f64)
}

fn eval_str(s: &str) -> f64 {
    val(&evaluate_expression(s).unwrap())
}

fn lit(n: i64) -> Expr {
    Expr::Literal(Rat { num: n, den: 1 })
}

#[test]
fn node_one_level_evaluates() {
    let n = Expr::Binary(Box::new(lit(5)), Operator::ADD, Box::new(lit(1)));

    let result = evaluate(&n).unwrap();

    assert_eq!(val(&result), 6.0);
}

#[test]
fn plain_arithmetic_follows_infix_rules() {
    assert_eq!(eval_str("3 + 4 * 2"), 11.0);
    assert_eq!(eval_str("10 - 2 - 3"), 5.0);
    assert_eq!(eval_str("10 / 4"), 2.5);
    assert_eq!(eval_str("1 + 2 * 3 - 4 / 2"), 5.0);
}

#[test]
fn exponent_is_right_associative() {
    assert_eq!(eval_str("2 ^ 3 ^ 2"), 512.0);
    assert_eq!(eval_str("2 ^ 3"), 8.0);
}

#[test]
fn parentheses_override_precedence() {
    assert_eq!(eval_str("(3 + 4) * 2"), 14.0);
    assert_eq!(eval_str("3 + 4 * 2"), 11.0);
}

#[test]
fn factorial_binds_tightest() {
    assert_eq!(eval_str("3 + 4!"), 27.0);
    assert_eq!(eval_str("4!"), 24.0);
    assert_eq!(eval_str("0 !"), 1.0);
}

#[test]
fn division_by_zero_fails() {
    let r = evaluate_expression("5 / 0");
    assert!(matches!(r, Err(EvaluationError::Eval(EvalError::DivisionByZero))));
    let r2 = evaluate_expression("5 // (1 - 1)");
    assert!(matches!(r2, Err(EvaluationError::Eval(EvalError::DivisionByZero))));
}

#[test]
fn factorial_of_non_integer_or_negative_fails() {
    match evaluate_expression("2.5 !") {
        Err(EvaluationError::Eval(EvalError::InvalidFactorial(r))) => {
            // the error carries the offending operand: 25/10
            assert_eq!((r.num, r.den), (25, 10));
        },
        other => panic!("expected an invalid-factorial error, got {:?}", other),
    }
    match evaluate_expression("-1 !") {
        Err(EvaluationError::Eval(EvalError::InvalidFactorial(r))) => {
            assert_eq!((r.num, r.den), (-1, 1));
        },
        other => panic!("expected an invalid-factorial error, got {:?}", other),
    }
}

#[test]
fn malformed_input_fails_at_parse_time() {
    match evaluate_expression("3 + ") {
        Err(EvaluationError::Parse(pe)) => {
            assert_eq!(pe.kind, ParseErrorKind::UnexpectedToken)
        },
        other => panic!("expected a parse error, got {:?}", other),
    }
    match evaluate_expression("(3 + 4") {
        Err(EvaluationError::Parse(pe)) => {
            assert_eq!(pe.kind, ParseErrorKind::UnmatchedParen)
        },
        other => panic!("expected a parse error, got {:?}", other),
    }
}

#[test]
fn empty_input_is_its_own_error() {
    match evaluate_expression("") {
        Err(EvaluationError::Parse(pe)) => assert_eq!(pe.kind, ParseErrorKind::EmptyInput),
        other => panic!("expected a parse error, got {:?}", other),
    }
    match evaluate_expression("   ") {
        Err(EvaluationError::Parse(pe)) => assert_eq!(pe.kind, ParseErrorKind::EmptyInput),
        other => panic!("expected a parse error, got {:?}", other),
    }
}

#[test]
fn unexpected_character_reports_its_position() {
    match evaluate_expression("3 + $") {
        Err(EvaluationError::Parse(pe)) => {
            assert_eq!(pe.kind, ParseErrorKind::UnexpectedChar);
            assert_eq!(pe.pos, 4);
        },
        other => panic!("expected a parse error, got {:?}", other),
    }
}

#[test]
fn oversized_literal_is_rejected() {
    match evaluate_expression("99999999999999999999") {
        Err(EvaluationError::Parse(pe)) => {
            assert_eq!(pe.kind, ParseErrorKind::NumberTooLarge)
        },
        other => panic!("expected a parse error, got {:?}", other),
    }
}

#[test]
fn chained_factorial_is_rejected_at_parse_time() {
    match evaluate_expression("5 ! !") {
        Err(EvaluationError::Parse(pe)) => {
            assert_eq!(pe.kind, ParseErrorKind::InvalidFactorial)
        },
        other => panic!("expected a parse error, got {:?}", other),
    }
}

#[test]
fn deep_nesting_fails_predictably() {
    let mut s = String::new();
    for _ in 0..400 {
        s.push('(');
    }
    s.push('1');
    for _ in 0..400 {
        s.push(')');
    }
    match evaluate_expression(&s) {
        Err(EvaluationError::Parse(pe)) => {
            assert_eq!(pe.kind, ParseErrorKind::TooDeeplyNested)
        },
        other => panic!("expected a parse error, got {:?}", other),
    }
}

#[test]
fn fractional_or_zero_base_negative_exponent_fails() {
    let r = evaluate_expression("2 ^ 0.5");
    assert!(matches!(r, Err(EvaluationError::Eval(EvalError::InvalidExponent(_)))));
    let r2 = evaluate_expression("0 ^ -1");
    assert!(matches!(r2, Err(EvaluationError::Eval(EvalError::InvalidExponent(_)))));
}

#[test]
fn negative_exponent_inverts() {
    assert_eq!(eval_str("2 ^ -2"), 0.25);
    assert_eq!(eval_str("4 ^ -1"), 0.25);
}

#[test]
fn overflow_is_reported_not_wrapped() {
    let r = evaluate_expression("2 ^ 200");
    assert!(matches!(r, Err(EvaluationError::Eval(EvalError::Overflow))));
    let r2 = evaluate_expression("25 !");
    assert!(matches!(r2, Err(EvaluationError::Eval(EvalError::Overflow))));
    let r3 = evaluate_expression("9999999999 * 9999999999");
    assert!(matches!(r3, Err(EvaluationError::Eval(EvalError::Overflow))));
}

#[test]
fn integer_division_floors() {
    assert_eq!(eval_str("7 // 2"), 3.0);
    assert_eq!(eval_str("-7 // 2"), -4.0);
    assert_eq!(eval_str("8 // 2"), 4.0);
}

#[test]
fn unary_minus_reads_as_negation() {
    assert_eq!(eval_str("-5 + 3"), -2.0);
    assert_eq!(eval_str("3 - -2"), 5.0);
    assert_eq!(eval_str("- (2 + 3)"), -5.0);
}

#[test]
fn tokens_need_no_spaces_around_parens() {
    assert_eq!(eval_str("(3+4)*2"), 14.0);
    assert_eq!(eval_str("( 3 + 4 ) * 2"), 14.0);
}

#[test]
fn decimals_are_exact() {
    assert_eq!(eval_str("2.5 * 2"), 5.0);
    assert_eq!(eval_str("0.1 + 0.2"), 0.3);
    let r = evaluate_expression("0.1 + 0.2").unwrap();
    // exact rational arithmetic: 1/10 + 2/10 == 3/10, with no rounding
    assert_eq!(r.num * 10, 3 * r.den);
}

#[test]
fn pretty_printed_tree_reparses_identically() {
    let toks = tokenize("3 + 4 * 2 - (1 / 2) ^ 2 ^ 3").unwrap();
    let tree = parse(&toks).unwrap();
    let printed = pretty_print(&tree);
    let toks2 = tokenize(&printed).unwrap();
    let tree2 = parse(&toks2).unwrap();
    assert_eq!(tree, tree2);
    let v1 = evaluate(&tree).unwrap();
    let v2 = evaluate(&tree2).unwrap();
    assert_eq!(val(&v1), val(&v2));
}

#[test]
fn pretty_print_parenthesizes_fully() {
    let toks = tokenize("3 + 4").unwrap();
    let tree = parse(&toks).unwrap();
    assert_eq!(pretty_print(&tree), "( 3 + 4 )");
    let toks2 = tokenize("2.5 !").unwrap();
    let tree2 = parse(&toks2).unwrap();
    assert_eq!(pretty_print(&tree2), "( 2.5 ! )");
}

#[test]
fn print_tokens_wraps_compounds() {
    let toks = tokenize("1 + 2").unwrap();
    let tree = parse(&toks).unwrap();
    let printed = print_tokens(&tree);
    assert_eq!(printed.len(), 5);
    assert_eq!(printed[0], expr_engine::token::Token::LParen);
    assert_eq!(printed[4], expr_engine::token::Token::RParen);
}

#[test]
fn operator_table_is_the_single_source_of_truth() {
    assert!(precedence(Operator::FACT) > precedence(Operator::EXP));
    assert!(precedence(Operator::EXP) > precedence(Operator::MULT));
    assert_eq!(precedence(Operator::MULT), precedence(Operator::DIV));
    assert_eq!(precedence(Operator::DIV), precedence(Operator::IDIV));
    assert!(precedence(Operator::MULT) > precedence(Operator::ADD));
    assert_eq!(precedence(Operator::ADD), precedence(Operator::SUB));
    assert_eq!(associativity(Operator::EXP), Assoc::RightAssoc);
    assert_eq!(associativity(Operator::ADD), Assoc::LeftAssoc);
    assert_eq!(associativity(Operator::FACT), Assoc::NonAssoc);
    assert_eq!(arity(Operator::FACT), Arity::Unary);
    assert_eq!(arity(Operator::EXP), Arity::Binary);
}

#[test]
fn operator_symbols_round_trip() {
    let ops = [
        Operator::ADD,
        Operator::SUB,
        Operator::MULT,
        Operator::DIV,
        Operator::IDIV,
        Operator::EXP,
        Operator::FACT,
    ];
    for op in ops {
        let s = op_to_str(op).unwrap();
        assert_eq!(str_to_op(s), Some(op));
    }
    assert_eq!(operator_symbol(Operator::IDIV), "//");
    assert_eq!(str_to_op(String::from("%")), None);
    assert_eq!(str_to_op(String::from("++")), None);
}

#[test]
fn rat_compares_by_value() {
    let half = Rat { num: 1, den: 2 };
    let two_quarters = Rat { num: 2, den: 4 };
    assert!(half.eq_value(two_quarters));
    assert!(!half.eq_value(Rat { num: 1, den: 3 }));
}

#[test]
fn reparent_grafts_a_binary_node() {
    let grafted = lit(2).reparent(lit(3), Operator::MULT);
    let v = evaluate(&grafted).unwrap();
    assert_eq!(val(&v), 6.0);
}

#[test]
fn error_details_are_readable() {
    assert_eq!(EvalError::DivisionByZero.detail(), "division by zero");
    match evaluate_expression("(") {
        Err(EvaluationError::Parse(pe)) => {
            assert!(!pe.detail().is_empty());
        },
        other => panic!("expected a parse error, got {:?}", other),
    }
}

#[test]
fn trailing_tokens_are_rejected() {
    match evaluate_expression("3 4") {
        Err(EvaluationError::Parse(pe)) => {
            assert_eq!(pe.kind, ParseErrorKind::UnexpectedToken);
            assert_eq!(pe.pos, 1);
        },
        other => panic!("expected a parse error, got {:?}", other),
    }
    match evaluate_expression("(3 + 4))") {
        Err(EvaluationError::Parse(pe)) => {
            assert_eq!(pe.kind, ParseErrorKind::UnexpectedToken)
        },
        other => panic!("expected a parse error, got {:?}", other),
    }
}

#[test]
fn left_fails_before_right() {
    // the left operand's failure short-circuits, so the right division by
    // zero is never reached
    let r = evaluate_expression("(2.5 !) + (1 / 0)");
    assert!(matches!(r, Err(EvaluationError::Eval(EvalError::InvalidFactorial(_)))));
}
