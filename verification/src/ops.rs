//! The operator table: the fixed set of operator symbols with their
//! precedence, associativity and arity. This module is the single source of
//! truth for precedence decisions; the parser and the printer both consult it.

use vstd::prelude::*;

verus! {

/// The operators the engine understands. All but `FACT` are binary infix
/// operators; `FACT` (factorial) is unary postfix.
#[derive(Clone, Copy, Debug, PartialEq, Eq, Structural)]
pub enum Operator {
    ADD,
    SUB,
    MULT,
    DIV,
    IDIV,
    EXP,
    FACT,
}

/// Associativity of an operator: how chains of equal precedence group.
#[derive(Clone, Copy, Debug, PartialEq, Eq, Structural)]
pub enum Assoc {
    LeftAssoc,
    RightAssoc,
    NonAssoc,
}

/// Arity of an operator.
#[derive(Clone, Copy, Debug, PartialEq, Eq, Structural)]
pub enum Arity {
    Unary,
    Binary,
}

/// Binding strength: factorial over exponentiation over the multiplicative
/// operators over the additive ones.
pub open spec fn spec_precedence(op: Operator) -> int {
    match op {
        Operator::ADD => 1,
        Operator::SUB => 1,
        Operator::MULT => 2,
        Operator::DIV => 2,
        Operator::IDIV => 2,
        Operator::EXP => 3,
        Operator::FACT => 4,
    }
}

pub open spec fn spec_associativity(op: Operator) -> Assoc {
    match op {
        Operator::EXP => Assoc::RightAssoc,
        Operator::FACT => Assoc::NonAssoc,
        _ => Assoc::LeftAssoc,
    }
}

pub open spec fn spec_arity(op: Operator) -> Arity {
    match op {
        Operator::FACT => Arity::Unary,
        _ => Arity::Binary,
    }
}

/// An operator that may appear between two operands.
pub open spec fn spec_is_binary(op: Operator) -> bool {
    spec_arity(op) == Arity::Binary
}

pub fn precedence(op: Operator) -> (r: u32)
    ensures
        r == spec_precedence(op),
{
    match op {
        Operator::ADD => 1,
        Operator::SUB => 1,
        Operator::MULT => 2,
        Operator::DIV => 2,
        Operator::IDIV => 2,
        Operator::EXP => 3,
        Operator::FACT => 4,
    }
}

pub fn associativity(op: Operator) -> (r: Assoc)
    ensures
        r == spec_associativity(op),
{
    match op {
        Operator::EXP => Assoc::RightAssoc,
        Operator::FACT => Assoc::NonAssoc,
        _ => Assoc::LeftAssoc,
    }
}

pub fn arity(op: Operator) -> (r: Arity)
    ensures
        r == spec_arity(op),
{
    match op {
        Operator::FACT => Arity::Unary,
        _ => Arity::Binary,
    }
}

pub fn is_binary(op: Operator) -> (r: bool)
    ensures
        r == spec_is_binary(op),
{
    match op {
        Operator::FACT => false,
        _ => true,
    }
}

/// The display symbol of each operator, as a character sequence.
pub open spec fn spec_op_chars(op: Operator) -> Seq<char> {
    match op {
        Operator::ADD => seq!['+'],
        Operator::SUB => seq!['-'],
        Operator::MULT => seq!['*'],
        Operator::DIV => seq!['/'],
        Operator::IDIV => seq!['/', '/'],
        Operator::EXP => seq!['^'],
        Operator::FACT => seq!['!'],
    }
}

/// The symbol read back from a character sequence, if it is one of the
/// operator symbols.
pub open spec fn spec_str_to_op(cs: Seq<char>) -> Option<Operator> {
    if cs.len() == 1 {
        if cs[0] == '+' {
            Some(Operator::ADD)
        } else if cs[0] == '-' {
            Some(Operator::SUB)
        } else if cs[0] == '*' {
            Some(Operator::MULT)
        } else if cs[0] == '/' {
            Some(Operator::DIV)
        } else if cs[0] == '^' {
            Some(Operator::EXP)
        } else if cs[0] == '!' {
            Some(Operator::FACT)
        } else {
            None
        }
    } else if cs.len() == 2 && cs[0] == '/' && cs[1] == '/' {
        Some(Operator::IDIV)
    } else {
        None
    }
}

/// Reads an operator back from its symbol; `None` when the string is not one
/// of the recognized symbols.
pub fn str_to_op(s: String) -> (r: Option<Operator>)
    ensures
        r == spec_str_to_op(s@),
{
    let st = s.as_str();
    let n = st.unicode_len();
    if n == 1 {
        let c = st.get_char(0);
        if c == '+' {
            Some(Operator::ADD)
        } else if c == '-' {
            Some(Operator::SUB)
        } else if c == '*' {
            Some(Operator::MULT)
        } else if c == '/' {
            Some(Operator::DIV)
        } else if c == '^' {
            Some(Operator::EXP)
        } else if c == '!' {
            Some(Operator::FACT)
        } else {
            None
        }
    } else if n == 2 {
        let c0 = st.get_char(0);
        let c1 = st.get_char(1);
        if c0 == '/' && c1 == '/' {
            Some(Operator::IDIV)
        } else {
            None
        }
    } else {
        None
    }
}

/// The display symbol of an operator, for error messages and printing.
pub fn operator_symbol(op: Operator) -> (r: String)
    ensures
        r@ == spec_op_chars(op),
{
    match op {
        Operator::ADD => {
            let t = String::from_str("+");
            proof {
                reveal_strlit("+");
            }
            t
        },
        Operator::SUB => {
            let t = String::from_str("-");
            proof {
                reveal_strlit("-");
            }
            t
        },
        Operator::MULT => {
            let t = String::from_str("*");
            proof {
                reveal_strlit("*");
            }
            t
        },
        Operator::DIV => {
            let t = String::from_str("/");
            proof {
                reveal_strlit("/");
            }
            t
        },
        Operator::IDIV => {
            let t = String::from_str("//");
            proof {
                reveal_strlit("//");
            }
            t
        },
        Operator::EXP => {
            let t = String::from_str("^");
            proof {
                reveal_strlit("^");
            }
            t
        },
        Operator::FACT => {
            let t = String::from_str("!");
            proof {
                reveal_strlit("!");
            }
            t
        },
    }
}

/// Writes an operator back as its display symbol. Every operator has one, so
/// the result is always `Some`.
pub fn op_to_str(o: Operator) -> (r: Option<String>)
    ensures
        r matches Some(t) && t@ == spec_op_chars(o),
{
    Some(operator_symbol(o))
}

} // verus!
