//! The printer: writes a tree back as tokens and text, every compound node
//! fully parenthesized, and the proof that re-parsing a printed tree gives
//! back the identical tree.

use crate::ast::{Expr, Rat};
use crate::errors::ParseError;
use crate::ops::{spec_is_binary, Operator};
use crate::parse::{
    clamp_after, next_min_prec, spec_parse, spec_parse_expr, spec_parse_loop, spec_parse_primary,
    MAX_DEPTH,
};
use crate::token::{
    digit_val, is_digit, is_pow10, spec_scan_digits, spec_scan_frac, spec_scan_number,
    spec_tokenize, spec_tokenize_from, tok_wf, toks_wf, Token,
};
use vstd::prelude::*;

verus! {

/// The printed form of a tree, as tokens: literals bare, every compound
/// node wrapped in parentheses.
pub open spec fn ptoks(e: Expr) -> Seq<Token>
    decreases e,
{
    match e {
        Expr::Literal(r) => seq![Token::Num(r)],
        Expr::Binary(l, op, r) => seq![Token::LParen] + ptoks(*l) + seq![Token::OpTok(op)]
            + ptoks(*r) + seq![Token::RParen],
        Expr::Unary(x, _op) => seq![Token::LParen] + ptoks(*x) + seq![
            Token::OpTok(Operator::FACT),
            Token::RParen,
        ],
    }
}

/// Writes the tree's printed form as a token sequence.
pub fn print_tokens(e: &Expr) -> (v: Vec<Token>)
    ensures
        v@ == ptoks(*e),
    decreases *e,
{
    match e {
        Expr::Literal(r) => {
            let mut v: Vec<Token> = Vec::new();
            v.push(Token::Num(*r));
            proof {
                assert(v@ =~= ptoks(*e));
            }
            v
        },
        Expr::Binary(l, op, r) => {
            let mut v: Vec<Token> = Vec::new();
            v.push(Token::LParen);
            let mut lv = print_tokens(&**l);
            v.append(&mut lv);
            v.push(Token::OpTok(*op));
            let mut rv = print_tokens(&**r);
            v.append(&mut rv);
            v.push(Token::RParen);
            proof {
                assert(v@ =~= ptoks(*e));
            }
            v
        },
        Expr::Unary(x, _op) => {
            let mut v: Vec<Token> = Vec::new();
            v.push(Token::LParen);
            let mut xv = print_tokens(&**x);
            v.append(&mut xv);
            v.push(Token::OpTok(Operator::FACT));
            v.push(Token::RParen);
            proof {
                assert(v@ =~= ptoks(*e));
            }
            v
        },
    }
}

pub open spec fn digit_char(d: int) -> char {
    if d == 0 {
        '0'
    } else if d == 1 {
        '1'
    } else if d == 2 {
        '2'
    } else if d == 3 {
        '3'
    } else if d == 4 {
        '4'
    } else if d == 5 {
        '5'
    } else if d == 6 {
        '6'
    } else if d == 7 {
        '7'
    } else if d == 8 {
        '8'
    } else {
        '9'
    }
}

/// The decimal digits of a positive number; empty for zero.
pub open spec fn spec_nat_chars(n: int) -> Seq<char>
    decreases n,
{
    if n <= 0 {
        Seq::empty()
    } else {
        spec_nat_chars(n / 10) + seq![digit_char(n % 10)]
    }
}

/// The decimal digits of a nonnegative number.
pub open spec fn spec_int_chars(n: int) -> Seq<char> {
    if n == 0 {
        seq!['0']
    } else {
        spec_nat_chars(n)
    }
}

/// How many fraction digits a power-of-ten denominator carries.
pub open spec fn pow10_width(d: int) -> int
    decreases d,
{
    if d <= 1 {
        0
    } else {
        1 + pow10_width(d / 10)
    }
}

/// Exactly `k` digits of `v`, zero-padded on the left.
pub open spec fn spec_frac_chars(v: int, k: int) -> Seq<char>
    decreases k,
{
    if k <= 0 {
        Seq::empty()
    } else {
        spec_frac_chars(v / 10, k - 1) + seq![digit_char(v % 10)]
    }
}

/// A rational literal's text: its integer part, and for a denominator past
/// one, a point and the zero-padded fraction digits.
pub open spec fn spec_rat_chars(r: Rat) -> Seq<char> {
    let m = if r.num < 0 {
        -r.num as int
    } else {
        r.num as int
    };
    let sign: Seq<char> = if r.num < 0 {
        seq!['-']
    } else {
        Seq::empty()
    };
    if r.den == 1 {
        sign + spec_int_chars(m)
    } else {
        sign + spec_int_chars(m / r.den as int) + seq!['.'] + spec_frac_chars(
            m % r.den as int,
            pow10_width(r.den as int),
        )
    }
}

pub open spec fn spec_tok_chars(t: Token) -> Seq<char> {
    match t {
        Token::Num(r) => spec_rat_chars(r),
        Token::OpTok(op) => crate::ops::spec_op_chars(op),
        Token::LParen => seq!['('],
        Token::RParen => seq![')'],
    }
}

/// Tokens joined by single spaces.
pub open spec fn spec_render(ts: Seq<Token>) -> Seq<char>
    decreases ts.len(),
{
    if ts.len() == 0 {
        Seq::empty()
    } else {
        spec_render(ts.drop_last()) + (if ts.len() > 1 {
            seq![' ']
        } else {
            Seq::empty()
        }) + spec_tok_chars(ts.last())
    }
}

fn digit_str(d: u64) -> (r: &'static str)
    requires
        d <= 9,
    ensures
        r@ == seq![digit_char(d as int)],
{
    proof {
        reveal_strlit("0");
        reveal_strlit("1");
        reveal_strlit("2");
        reveal_strlit("3");
        reveal_strlit("4");
        reveal_strlit("5");
        reveal_strlit("6");
        reveal_strlit("7");
        reveal_strlit("8");
        reveal_strlit("9");
    }
    match d {
        0 => "0",
        1 => "1",
        2 => "2",
        3 => "3",
        4 => "4",
        5 => "5",
        6 => "6",
        7 => "7",
        8 => "8",
        _ => "9",
    }
}

fn push_nat(n: u64, out: &mut String)
    ensures
        final(out)@ == old(out)@ + spec_nat_chars(n as int),
    decreases n,
{
    if n == 0 {
        proof {
            assert(old(out)@ + spec_nat_chars(0) =~= old(out)@);
        }
        return ;
    }
    push_nat(n / 10, out);
    out.append(digit_str(n % 10));
    proof {
        assert(old(out)@ + (spec_nat_chars(n as int / 10) + seq![digit_char(n as int % 10)])
            =~= (old(out)@ + spec_nat_chars(n as int / 10)) + seq![digit_char(n as int % 10)]);
    }
}

/// Writes the fraction digits of `v`, one per factor of ten in `den`,
/// zero-padded on the left.
fn push_frac_den(v: u64, den: u64, out: &mut String)
    ensures
        final(out)@ == old(out)@ + spec_frac_chars(v as int, pow10_width(den as int)),
    decreases den,
{
    if den <= 1 {
        proof {
            assert(old(out)@ + spec_frac_chars(v as int, pow10_width(den as int)) =~= old(out)@);
        }
        return ;
    }
    push_frac_den(v / 10, den / 10, out);
    out.append(digit_str(v % 10));
    proof {
        lemma_width_nonneg(den as int / 10);
        assert(pow10_width(den as int) == 1 + pow10_width(den as int / 10));
        assert(spec_frac_chars(v as int, pow10_width(den as int)) == spec_frac_chars(
            v as int / 10,
            pow10_width(den as int / 10),
        ) + seq![digit_char(v as int % 10)]);
        assert(old(out)@ + (spec_frac_chars(v as int / 10, pow10_width(den as int / 10)) + seq![
            digit_char(v as int % 10),
        ]) =~= (old(out)@ + spec_frac_chars(v as int / 10, pow10_width(den as int / 10))) + seq![
            digit_char(v as int % 10),
        ]);
    }
}

proof fn lemma_width_nonneg(d: int)
    ensures
        pow10_width(d) >= 0,
    decreases d,
{
    if d > 1 {
        lemma_width_nonneg(d / 10);
    }
}

/// Writes one rational literal as text.
fn render_rat(r: &Rat) -> (s: String)
    requires
        r.wf(),
    ensures
        s@ == spec_rat_chars(*r),
{
    let mut out = String::new();
    if r.num < 0 {
        out.append("-");
        proof {
            reveal_strlit("-");
        }
    }
    let m: u64 = if r.num < 0 {
        (-r.num) as u64
    } else {
        r.num as u64
    };
    let den: u64 = r.den as u64;
    if den == 1 {
        if m == 0 {
            out.append("0");
            proof {
                reveal_strlit("0");
            }
        } else {
            push_nat(m, &mut out);
        }
    } else {
        let ip = m / den;
        let fp = m % den;
        if ip == 0 {
            out.append("0");
            proof {
                reveal_strlit("0");
            }
        } else {
            push_nat(ip, &mut out);
        }
        out.append(".");
        proof {
            reveal_strlit(".");
        }
        push_frac_den(fp, den, &mut out);
    }
    proof {
        assert(out@ =~= spec_rat_chars(*r));
    }
    out
}

/// Writes a token sequence as text, tokens separated by single spaces.
pub fn render_tokens(toks: &Vec<Token>) -> (s: String)
    requires
        forall|k: int|
            0 <= k < toks@.len() ==> (#[trigger] toks@[k] matches Token::Num(r) ==> r.wf()),
    ensures
        s@ == spec_render(toks@),
{
    let mut out = String::new();
    let mut i: usize = 0;
    proof {
        assert(spec_render(toks@.subrange(0, 0)) =~= Seq::<char>::empty());
        assert(out@ =~= spec_render(toks@.subrange(0, 0)));
    }
    while i < toks.len()
        invariant
            i <= toks@.len(),
            forall|k: int|
                0 <= k < toks@.len() ==> (#[trigger] toks@[k] matches Token::Num(r) ==> r.wf()),
            out@ == spec_render(toks@.subrange(0, i as int)),
        decreases toks@.len() - i,
    {
        if i > 0 {
            out.append(" ");
            proof {
                reveal_strlit(" ");
            }
        }
        let piece: String = match &toks[i] {
            Token::Num(r) => render_rat(r),
            Token::OpTok(op) => crate::ops::operator_symbol(*op),
            Token::LParen => {
                proof {
                    reveal_strlit("(");
                }
                String::from_str("(")
            },
            Token::RParen => {
                proof {
                    reveal_strlit(")");
                }
                String::from_str(")")
            },
        };
        out.append(piece.as_str());
        proof {
            let pre = toks@.subrange(0, i as int + 1);
            assert(pre.drop_last() =~= toks@.subrange(0, i as int));
            assert(pre.last() == toks@[i as int]);
            assert(out@ =~= spec_render(pre));
        }
        i = i + 1;
    }
    proof {
        assert(toks@.subrange(0, toks@.len() as int) =~= toks@);
    }
    out
}

/// Writes a tree back as text: its printed tokens joined by single spaces.
pub fn pretty_print(e: &Expr) -> (s: String)
    requires
        e.wf(),
    ensures
        s@ == spec_render(ptoks(*e)),
{
    let toks = print_tokens(e);
    proof {
        lemma_ptoks_wf(*e);
    }
    render_tokens(&toks)
}

/// A well-formed tree prints well-formed tokens.
proof fn lemma_ptoks_wf(e: Expr)
    requires
        e.wf(),
    ensures
        forall|k: int|
            0 <= k < ptoks(e).len() ==> (#[trigger] ptoks(e)[k] matches Token::Num(r) ==> r.wf()),
    decreases e,
{
    match e {
        Expr::Literal(_) => {},
        Expr::Binary(l, op, r) => {
            lemma_ptoks_wf(*l);
            lemma_ptoks_wf(*r);
        },
        Expr::Unary(x, _op) => {
            lemma_ptoks_wf(*x);
        },
    }
}

/// An element of an embedded sequence, read through the surrounding one.
proof fn lemma_sub_at<T>(toks: Seq<T>, i: int, s: Seq<T>, k: int)
    requires
        0 <= i,
        i + s.len() <= toks.len(),
        toks.subrange(i, i + s.len() as int) == s,
        0 <= k < s.len(),
    ensures
        toks[i + k] == s[k],
{
    assert(toks.subrange(i, i + s.len() as int)[k] == toks[i + k]);
}

/// A slice of an embedded sequence is embedded at the shifted position.
proof fn lemma_sub_sub<T>(toks: Seq<T>, i: int, s: Seq<T>, a: int, b: int)
    requires
        0 <= i,
        i + s.len() <= toks.len(),
        toks.subrange(i, i + s.len() as int) == s,
        0 <= a <= b <= s.len(),
    ensures
        toks.subrange(i + a, i + b) == s.subrange(a, b),
{
    assert forall|k: int| 0 <= k < b - a implies toks.subrange(i + a, i + b)[k] == s.subrange(
        a,
        b,
    )[k] by {
        lemma_sub_at(toks, i, s, a + k);
    }
    assert(toks.subrange(i + a, i + b) =~= s.subrange(a, b));
}

/// The printed form is never empty.
pub proof fn lemma_ptoks_len(e: Expr)
    ensures
        ptoks(e).len() >= 1,
{
    match e {
        Expr::Literal(_) => {},
        Expr::Binary(_, _, _) => {},
        Expr::Unary(_, _) => {},
    }
}

/// Parsing a printed tree embedded at `i` gives back exactly that tree,
/// consuming exactly its printed tokens, for any depth budget at least the
/// tree's own.
proof fn lemma_print_parse_primary(toks: Seq<Token>, i: int, t: Expr, d: int)
    requires
        t.wf(),
        t.pdepth() <= d,
        0 <= i,
        i + ptoks(t).len() <= toks.len(),
        toks.subrange(i, i + ptoks(t).len() as int) == ptoks(t),
    ensures
        spec_parse_primary(toks, i, d) == Ok::<(Expr, int), ParseError>(
            (t, i + ptoks(t).len()),
        ),
    decreases t,
{
    let s = ptoks(t);
    let len = toks.len() as int;
    match t {
        Expr::Literal(r) => {
            lemma_sub_at(toks, i, s, 0);
            assert(toks[i] == Token::Num(r));
        },
        Expr::Binary(bl, op, br) => {
            let l = *bl;
            let r = *br;
            let a = ptoks(l);
            let b = ptoks(r);
            let la = a.len() as int;
            let lb = b.len() as int;
            assert(s.len() == 3 + la + lb);
            assert(s[0] == Token::LParen);
            assert(s[1 + la] == Token::OpTok(op));
            assert(s[2 + la + lb] == Token::RParen);
            assert forall|k: int| 0 <= k < la implies s[1 + k] == a[k] by {}
            assert(s.subrange(1, 1 + la) =~= a);
            assert forall|k: int| 0 <= k < lb implies s[2 + la + k] == b[k] by {}
            assert(s.subrange(2 + la, 2 + la + lb) =~= b);
            lemma_sub_at(toks, i, s, 0);
            lemma_sub_at(toks, i, s, 1 + la);
            lemma_sub_at(toks, i, s, 2 + la + lb);
            lemma_sub_sub(toks, i, s, 1, 1 + la);
            lemma_sub_sub(toks, i, s, 2 + la, 2 + la + lb);
            // the operand subtrees need strictly less depth
            assert(t.pdepth() == 1 + vstd::math::max(l.pdepth(), 1 + r.pdepth()));
            assert(l.pdepth() <= d - 1);
            assert(r.pdepth() + 2 <= d);
            assert(op != Operator::FACT) by {
                assert(spec_is_binary(op));
            }
            // left operand
            lemma_print_parse_primary(toks, i + 1, l, d - 1);
            let jop = i + 1 + la;
            assert(toks[jop] == Token::OpTok(op));
            assert(clamp_after(i + 1, jop, len) == jop);
            // right operand, under the climbed minimum precedence
            let right = crate::ops::spec_associativity(op) == crate::ops::Assoc::RightAssoc;
            let d2 = if right {
                d - 2
            } else {
                d - 1
            };
            assert(r.pdepth() <= d2);
            lemma_print_parse_primary(toks, jop + 1, r, d2);
            let jr = jop + 1 + lb;
            assert(toks[jr] == Token::RParen);
            // the right-hand side's expression parse stops at the `)`
            assert(clamp_after(jop + 1, jr, len) == jr);
            assert(spec_parse_loop(toks, jr, next_min_prec(op), r, d2) == Ok::<
                (Expr, int),
                ParseError,
            >((r, jr)));
            assert(spec_parse_expr(toks, jop + 1, next_min_prec(op), d2) == Ok::<
                (Expr, int),
                ParseError,
            >((r, jr)));
            // the inner climbing loop folds once, then stops at the `)`
            assert(clamp_after(jop, jr, len) == jr);
            let folded = Expr::Binary(Box::new(l), op, Box::new(r));
            assert(folded == t);
            assert(spec_parse_loop(toks, jr, 0, t, d - 1) == Ok::<(Expr, int), ParseError>(
                (t, jr),
            ));
            assert(spec_parse_loop(toks, jop, 0, l, d - 1) == Ok::<(Expr, int), ParseError>(
                (t, jr),
            ));
            assert(spec_parse_expr(toks, i + 1, 0, d - 1) == Ok::<(Expr, int), ParseError>(
                (t, jr),
            ));
            assert(spec_parse_primary(toks, i, d) == Ok::<(Expr, int), ParseError>(
                (t, jr + 1),
            ));
        },
        Expr::Unary(bx, _op) => {
            let x = *bx;
            let a = ptoks(x);
            let la = a.len() as int;
            assert(s.len() == 3 + la);
            assert(s[0] == Token::LParen);
            assert(s[1 + la] == Token::OpTok(Operator::FACT));
            assert(s[2 + la] == Token::RParen);
            assert forall|k: int| 0 <= k < la implies s[1 + k] == a[k] by {}
            assert(s.subrange(1, 1 + la) =~= a);
            lemma_sub_at(toks, i, s, 0);
            lemma_sub_at(toks, i, s, 1 + la);
            lemma_sub_at(toks, i, s, 2 + la);
            lemma_sub_sub(toks, i, s, 1, 1 + la);
            assert(x.pdepth() <= d - 1);
            lemma_print_parse_primary(toks, i + 1, x, d - 1);
            let jb = i + 1 + la;
            assert(toks[jb] == Token::OpTok(Operator::FACT));
            assert(toks[jb + 1] == Token::RParen);
            assert(clamp_after(i + 1, jb, len) == jb);
            let wrapped = Expr::Unary(Box::new(x), Operator::FACT);
            assert(wrapped == t);
            assert(spec_parse_loop(toks, jb + 1, 0, t, d - 1) == Ok::<(Expr, int), ParseError>(
                (t, jb + 1),
            ));
            assert(spec_parse_expr(toks, i + 1, 0, d - 1) == Ok::<(Expr, int), ParseError>(
                (t, jb + 1),
            ));
            assert(spec_parse_primary(toks, i, d) == Ok::<(Expr, int), ParseError>(
                (t, jb + 2),
            ));
        },
    }
}

/// A power of ten.
pub open spec fn pw10(k: int) -> int
    decreases k,
{
    if k <= 0 {
        1
    } else {
        10 * pw10(k - 1)
    }
}

proof fn lemma_pw10_pos(k: int)
    ensures
        pw10(k) >= 1,
    decreases k,
{
    if k > 0 {
        lemma_pw10_pos(k - 1);
    }
}

/// The number a digit string denotes.
pub open spec fn dval(cs: Seq<char>) -> int
    decreases cs.len(),
{
    if cs.len() == 0 {
        0
    } else {
        digit_val(cs[0]) * pw10(cs.len() - 1) + dval(cs.drop_first())
    }
}

pub open spec fn all_digits(cs: Seq<char>) -> bool {
    forall|k: int| 0 <= k < cs.len() ==> is_digit(#[trigger] cs[k])
}

proof fn lemma_digit_char_val(d: int)
    requires
        0 <= d <= 9,
    ensures
        is_digit(digit_char(d)),
        digit_val(digit_char(d)) == d,
{
}

proof fn lemma_dval_nonneg(cs: Seq<char>)
    requires
        all_digits(cs),
    ensures
        dval(cs) >= 0,
    decreases cs.len(),
{
    if cs.len() > 0 {
        lemma_dval_nonneg(cs.drop_first());
        lemma_pw10_pos(cs.len() - 1);
        assert(digit_val(cs[0]) * pw10(cs.len() - 1) >= 0) by (nonlinear_arith)
            requires
                digit_val(cs[0]) >= 0,
                pw10(cs.len() - 1) >= 1,
        ;
    }
}

/// Appending a digit multiplies the denoted number by ten and adds it.
proof fn lemma_dval_append(cs: Seq<char>, d: int)
    requires
        all_digits(cs),
        0 <= d <= 9,
    ensures
        dval(cs + seq![digit_char(d)]) == dval(cs) * 10 + d,
    decreases cs.len(),
{
    lemma_digit_char_val(d);
    let whole = cs + seq![digit_char(d)];
    if cs.len() == 0 {
        assert(whole.len() == 1);
        assert(whole[0] == digit_char(d));
        assert(whole.drop_first() =~= Seq::<char>::empty());
        assert(pw10(0) == 1);
        assert(dval(whole) == digit_val(digit_char(d)) * pw10(0) + dval(whole.drop_first()));
    } else {
        assert(whole[0] == cs[0]);
        assert(whole.drop_first() =~= cs.drop_first() + seq![digit_char(d)]);
        lemma_dval_append(cs.drop_first(), d);
        let l = cs.len() - 1;
        assert(dval(whole) == digit_val(cs[0]) * pw10(l + 1) + dval(whole.drop_first()));
        assert(dval(cs) == digit_val(cs[0]) * pw10(l) + dval(cs.drop_first()));
        assert(pw10(l + 1) == 10 * pw10(l));
        assert(digit_val(cs[0]) * pw10(l + 1) + (dval(cs.drop_first()) * 10 + d) == (digit_val(
            cs[0],
        ) * pw10(l) + dval(cs.drop_first())) * 10 + d) by (nonlinear_arith)
            requires
                pw10(l + 1) == 10 * pw10(l),
        ;
    }
}

/// The digits of a positive number denote that number.
proof fn lemma_nat_chars_digits(n: int)
    requires
        n >= 0,
    ensures
        all_digits(spec_nat_chars(n)),
        dval(spec_nat_chars(n)) == n || (n == 0 && dval(spec_nat_chars(n)) == 0),
        n >= 1 ==> spec_nat_chars(n).len() >= 1,
    decreases n,
{
    if n >= 1 {
        vstd::arithmetic::div_mod::lemma_mod_bound(n, 10);
        vstd::arithmetic::div_mod::lemma_fundamental_div_mod(n, 10);
        lemma_nat_chars_digits(n / 10);
        lemma_digit_char_val(n % 10);
        let a = spec_nat_chars(n / 10);
        assert(spec_nat_chars(n) == a + seq![digit_char(n % 10)]);
        assert forall|k: int| 0 <= k < spec_nat_chars(n).len() implies is_digit(
            #[trigger] spec_nat_chars(n)[k],
        ) by {
            if k < a.len() {
                assert(spec_nat_chars(n)[k] == a[k]);
            } else {
                assert(spec_nat_chars(n)[k] == digit_char(n % 10));
            }
        }
        lemma_dval_append(a, n % 10);
    }
}

/// The digits of a nonnegative number denote that number.
proof fn lemma_int_chars_digits(n: int)
    requires
        n >= 0,
    ensures
        all_digits(spec_int_chars(n)),
        dval(spec_int_chars(n)) == n,
        spec_int_chars(n).len() >= 1,
{
    lemma_nat_chars_digits(n);
    if n == 0 {
        lemma_digit_char_val(0);
        assert(spec_int_chars(0) =~= seq![digit_char(0)]);
        assert(spec_int_chars(0).drop_first() =~= Seq::<char>::empty());
    }
}

/// Zero-padded fraction digits denote their value.
proof fn lemma_frac_chars_digits(v: int, k: int)
    requires
        0 <= v < pw10(k),
        0 <= k,
    ensures
        all_digits(spec_frac_chars(v, k)),
        spec_frac_chars(v, k).len() == k,
        dval(spec_frac_chars(v, k)) == v,
    decreases k,
{
    if k == 0 {
        assert(pw10(0) == 1);
    } else {
        vstd::arithmetic::div_mod::lemma_mod_bound(v, 10);
        vstd::arithmetic::div_mod::lemma_fundamental_div_mod(v, 10);
        lemma_pw10_pos(k - 1);
        assert(v / 10 < pw10(k - 1)) by (nonlinear_arith)
            requires
                0 <= v < pw10(k),
                pw10(k) == 10 * pw10(k - 1),
                pw10(k - 1) >= 1,
                v == 10 * (v / 10) + v % 10,
                0 <= v % 10 < 10,
        ;
        lemma_frac_chars_digits(v / 10, k - 1);
        lemma_digit_char_val(v % 10);
        let a = spec_frac_chars(v / 10, k - 1);
        assert(spec_frac_chars(v, k) == a + seq![digit_char(v % 10)]);
        assert forall|j: int| 0 <= j < spec_frac_chars(v, k).len() implies is_digit(
            #[trigger] spec_frac_chars(v, k)[j],
        ) by {
            if j < a.len() {
                assert(spec_frac_chars(v, k)[j] == a[j]);
            } else {
                assert(spec_frac_chars(v, k)[j] == digit_char(v % 10));
            }
        }
        lemma_dval_append(a, v % 10);
    }
}

/// A power-of-ten denominator is `pw10` of its width.
proof fn lemma_pow10_shape(d: int)
    requires
        is_pow10(d),
    ensures
        d == pw10(pow10_width(d)),
        pow10_width(d) >= 0,
        d >= 1,
    decreases d,
{
    if d != 1 {
        lemma_pow10_shape(d / 10);
        vstd::arithmetic::div_mod::lemma_fundamental_div_mod(d, 10);
    }
}

/// Scanning an embedded digit string folds its value onto the accumulator
/// and stops right after it.
proof fn lemma_scan_digits_text(s: Seq<char>, i: int, cs: Seq<char>, acc: int)
    requires
        0 <= i,
        i + cs.len() <= s.len(),
        s.subrange(i, i + cs.len() as int) == cs,
        all_digits(cs),
        i + cs.len() == s.len() || !is_digit(s[i + cs.len()]),
        0 <= acc,
        acc * pw10(cs.len() as int) + dval(cs) <= i64::MAX,
    ensures
        spec_scan_digits(s, i, acc) == Ok::<(int, int), crate::errors::ParseError>(
            (acc * pw10(cs.len() as int) + dval(cs), i + cs.len()),
        ),
    decreases cs.len(),
{
    let l = cs.len() as int;
    lemma_dval_nonneg(cs);
    if l == 0 {
        assert(pw10(0) == 1);
    } else {
        lemma_sub_at(s, i, cs, 0);
        assert(s[i] == cs[0]);
        let d0 = digit_val(cs[0]);
        let a2 = acc * 10 + d0;
        let rest = cs.drop_first();
        assert(rest =~= cs.subrange(1, l));
        lemma_sub_sub(s, i, cs, 1, l);
        assert(s.subrange(i + 1, i + 1 + rest.len() as int) == rest);
        lemma_dval_nonneg(rest);
        lemma_pw10_pos(l - 1);
        assert(dval(cs) == d0 * pw10(l - 1) + dval(rest));
        assert(pw10(l) == 10 * pw10(l - 1));
        assert(acc * pw10(l) + dval(cs) == a2 * pw10(l - 1) + dval(rest)) by (nonlinear_arith)
            requires
                pw10(l) == 10 * pw10(l - 1),
                dval(cs) == d0 * pw10(l - 1) + dval(rest),
                a2 == acc * 10 + d0,
        ;
        assert(a2 <= a2 * pw10(l - 1) + dval(rest)) by (nonlinear_arith)
            requires
                pw10(l - 1) >= 1,
                dval(rest) >= 0,
                a2 >= 0,
        ;
        lemma_scan_digits_text(s, i + 1, rest, a2);
    }
}

/// Scanning embedded fraction digits folds them onto the numerator while
/// the denominator keeps pace.
proof fn lemma_scan_frac_text(s: Seq<char>, i: int, cs: Seq<char>, acc: int, den: int)
    requires
        0 <= i,
        i + cs.len() <= s.len(),
        s.subrange(i, i + cs.len() as int) == cs,
        all_digits(cs),
        i + cs.len() == s.len() || !is_digit(s[i + cs.len()]),
        0 <= acc,
        1 <= den,
        acc * pw10(cs.len() as int) + dval(cs) <= i64::MAX,
        den * pw10(cs.len() as int) <= i64::MAX,
    ensures
        spec_scan_frac(s, i, acc, den) == Ok::<(int, int, int), crate::errors::ParseError>(
            (acc * pw10(cs.len() as int) + dval(cs), den * pw10(cs.len() as int), i + cs.len()),
        ),
    decreases cs.len(),
{
    let l = cs.len() as int;
    lemma_dval_nonneg(cs);
    if l == 0 {
        assert(pw10(0) == 1);
    } else {
        lemma_sub_at(s, i, cs, 0);
        let d0 = digit_val(cs[0]);
        let a2 = acc * 10 + d0;
        let den2 = den * 10;
        let rest = cs.drop_first();
        assert(rest =~= cs.subrange(1, l));
        lemma_sub_sub(s, i, cs, 1, l);
        assert(s.subrange(i + 1, i + 1 + rest.len() as int) == rest);
        lemma_dval_nonneg(rest);
        lemma_pw10_pos(l - 1);
        assert(dval(cs) == d0 * pw10(l - 1) + dval(rest));
        assert(pw10(l) == 10 * pw10(l - 1));
        assert(acc * pw10(l) + dval(cs) == a2 * pw10(l - 1) + dval(rest)) by (nonlinear_arith)
            requires
                pw10(l) == 10 * pw10(l - 1),
                dval(cs) == d0 * pw10(l - 1) + dval(rest),
                a2 == acc * 10 + d0,
        ;
        assert(den * pw10(l) == den2 * pw10(l - 1)) by (nonlinear_arith)
            requires
                pw10(l) == 10 * pw10(l - 1),
                den2 == den * 10,
        ;
        assert(a2 <= a2 * pw10(l - 1) + dval(rest)) by (nonlinear_arith)
            requires
                pw10(l - 1) >= 1,
                dval(rest) >= 0,
                a2 >= 0,
        ;
        assert(den2 <= den2 * pw10(l - 1)) by (nonlinear_arith)
            requires
                pw10(l - 1) >= 1,
                den2 >= 0,
        ;
        lemma_scan_frac_text(s, i + 1, rest, a2, den2);
    }
}

/// Scanning an embedded rendered literal reads back exactly its numerator
/// and denominator and stops right after it.
proof fn lemma_scan_rat_text(s: Seq<char>, i: int, r: Rat)
    requires
        r.wf(),
        r.num >= 0,
        is_pow10(r.den as int),
        0 <= i,
        i + spec_rat_chars(r).len() <= s.len(),
        s.subrange(i, i + spec_rat_chars(r).len() as int) == spec_rat_chars(r),
        i + spec_rat_chars(r).len() == s.len() || (!is_digit(s[i + spec_rat_chars(r).len()])
            && s[i + spec_rat_chars(r).len()] != '.'),
    ensures
        spec_scan_number(s, i) == Ok::<((int, int), int), crate::errors::ParseError>(
            ((r.num as int, r.den as int), i + spec_rat_chars(r).len()),
        ),
{
    let cs = spec_rat_chars(r);
    let num = r.num as int;
    let den = r.den as int;
    lemma_pow10_shape(den);
    if den == 1 {
        assert(cs =~= spec_int_chars(num));
        lemma_int_chars_digits(num);
        assert(0 * pw10(cs.len() as int) + dval(cs) == num) by (nonlinear_arith)
            requires
                dval(cs) == num,
        ;
        lemma_scan_digits_text(s, i, cs, 0);
    } else {
        let w = pow10_width(den);
        let ip = num / den;
        let fp = num % den;
        vstd::arithmetic::div_mod::lemma_fundamental_div_mod(num, den);
        vstd::arithmetic::div_mod::lemma_mod_bound(num, den);
        assert(ip >= 0) by (nonlinear_arith)
            requires
                num == den * ip + fp,
                0 <= fp < den,
                num >= 0,
                den >= 1,
        ;
        let a = spec_int_chars(ip);
        let f = spec_frac_chars(fp, w);
        lemma_int_chars_digits(ip);
        lemma_frac_chars_digits(fp, w);
        let la = a.len() as int;
        assert(cs == a + seq!['.'] + f);
        assert(cs.len() == la + 1 + w);
        // the integer part sits at i, ending at the point
        assert forall|k: int| 0 <= k < la implies cs[k] == a[k] by {}
        assert(cs.subrange(0, la) =~= a);
        lemma_sub_sub(s, i, cs, 0, la);
        assert(cs[la] == '.');
        lemma_sub_at(s, i, cs, la);
        assert(!is_digit(s[i + la]));
        assert(0 * pw10(la) + dval(a) == ip) by (nonlinear_arith)
            requires
                dval(a) == ip,
        ;
        lemma_scan_digits_text(s, i, a, 0);
        // the fraction digits sit after the point
        assert forall|k: int| 0 <= k < w implies cs[la + 1 + k] == f[k] by {}
        assert(cs.subrange(la + 1, la + 1 + w) =~= f);
        lemma_sub_sub(s, i, cs, la + 1, la + 1 + w);
        assert(w >= 1);
        assert(f.len() >= 1);
        lemma_sub_at(s, i + la + 1, f, 0);
        assert(is_digit(s[i + la + 1]));
        assert(ip * pw10(w) + dval(f) == num) by (nonlinear_arith)
            requires
                dval(f) == fp,
                num == den * ip + fp,
                den == pw10(w),
        ;
        assert(1 * pw10(w) == den) by (nonlinear_arith)
            requires
                den == pw10(w),
        ;
        lemma_scan_frac_text(s, i + la + 1, f, ip, 1);
    }
}

/// The rendering of a nonempty token sequence, read from its head: the
/// first token's text, then a space and the rest.
proof fn lemma_render_head(ts: Seq<Token>)
    requires
        ts.len() >= 1,
    ensures
        ts.len() == 1 ==> spec_render(ts) == spec_tok_chars(ts[0]),
        ts.len() > 1 ==> spec_render(ts) == spec_tok_chars(ts[0]) + seq![' '] + spec_render(
            ts.drop_first(),
        ),
    decreases ts.len(),
{
    if ts.len() == 1 {
        assert(ts.drop_last() =~= Seq::<Token>::empty());
        assert(ts.last() == ts[0]);
        assert(spec_render(Seq::<Token>::empty()) == Seq::<char>::empty());
        assert(spec_render(ts) =~= spec_tok_chars(ts[0]));
    } else {
        let dl = ts.drop_last();
        lemma_render_head(dl);
        assert(dl[0] == ts[0]);
        let df = ts.drop_first();
        assert(df.last() == ts.last());
        assert(df.drop_last() =~= dl.drop_first());
        if ts.len() == 2 {
            assert(df.len() == 1);
            assert(df.drop_last() =~= Seq::<Token>::empty());
            assert(spec_render(Seq::<Token>::empty()) == Seq::<char>::empty());
            assert(df.last() == df[0]);
            assert(spec_render(df) =~= spec_tok_chars(df[0]));
            assert(df[0] == ts.last());
            assert(spec_render(ts) =~= spec_tok_chars(ts[0]) + seq![' '] + spec_render(df));
        } else {
            assert(spec_render(dl) == spec_tok_chars(dl[0]) + seq![' '] + spec_render(
                dl.drop_first(),
            ));
            assert(spec_render(df) == spec_render(df.drop_last()) + seq![' '] + spec_tok_chars(
                df.last(),
            ));
            assert(spec_render(ts) == spec_render(dl) + seq![' '] + spec_tok_chars(ts.last()));
            assert((spec_tok_chars(ts[0]) + seq![' '] + spec_render(dl.drop_first())) + seq![' ']
                + spec_tok_chars(ts.last()) =~= spec_tok_chars(ts[0]) + seq![' '] + (spec_render(
                dl.drop_first(),
            ) + seq![' '] + spec_tok_chars(ts.last())));
        }
    }
}

/// After one token's text, the scan either ends or skips the single space
/// and reads the remaining tokens.
proof fn lemma_tokenize_render_tail(s: Seq<char>, j: int, rest: Seq<Token>)
    requires
        toks_wf(rest),
        0 <= j <= s.len(),
        rest.len() == 0 ==> j == s.len(),
        rest.len() > 0 ==> j < s.len() && s[j] == ' ' && s.subrange(j + 1, s.len() as int)
            == spec_render(rest),
    ensures
        spec_tokenize_from(s, j) == Ok::<Seq<Token>, crate::errors::ParseError>(rest),
    decreases rest.len(), 1int,
{
    if rest.len() == 0 {
        assert(spec_tokenize_from(s, j) == Ok::<Seq<Token>, crate::errors::ParseError>(
            Seq::empty(),
        ));
        assert(Seq::<Token>::empty() =~= rest);
    } else {
        assert(crate::token::is_space(s[j]));
        lemma_tokenize_render(s, j + 1, rest);
    }
}

/// Tokenizing a rendered token sequence embedded as the suffix at `i`
/// yields back exactly those tokens.
proof fn lemma_tokenize_render(s: Seq<char>, i: int, ts: Seq<Token>)
    requires
        toks_wf(ts),
        0 <= i <= s.len(),
        s.subrange(i, s.len() as int) == spec_render(ts),
    ensures
        spec_tokenize_from(s, i) == Ok::<Seq<Token>, crate::errors::ParseError>(ts),
    decreases ts.len(), 0int,
{
    let len = s.len() as int;
    let r = spec_render(ts);
    assert(i + r.len() == len);
    if ts.len() == 0 {
        assert(Seq::<Token>::empty() =~= ts);
    } else {
        lemma_render_head(ts);
        let t0 = ts[0];
        let rest = ts.drop_first();
        let h = spec_tok_chars(t0);
        assert(tok_wf(ts[0]));
        assert forall|k: int| 0 <= k < rest.len() implies tok_wf(#[trigger] rest[k]) by {
            assert(rest[k] == ts[k + 1]);
            assert(tok_wf(ts[k + 1]));
        }
        if ts.len() == 1 {
            assert(r == h);
        } else {
            assert(r == h + seq![' '] + spec_render(rest));
        }
        assert(h.len() >= 1) by {
            match t0 {
                Token::Num(r0) => {
                    lemma_rat_chars_head(r0);
                },
                Token::OpTok(op) => {},
                Token::LParen => {},
                Token::RParen => {},
            }
        }
        // the head's text sits at i, then a space (or the end)
        assert forall|k: int| 0 <= k < h.len() implies r[k] == h[k] by {}
        assert(r.subrange(0, h.len() as int) =~= h);
        lemma_sub_sub(s, i, r, 0, h.len() as int);
        assert(s.subrange(i, i + h.len() as int) == h);
        let j = i + h.len();
        if ts.len() == 1 {
            assert(j == len);
        } else {
            assert(r[h.len() as int] == ' ');
            lemma_sub_at(s, i, r, h.len() as int);
            assert(s[j] == ' ');
            assert forall|k: int| 0 <= k < spec_render(rest).len() implies r[h.len() as int + 1 + k]
                == spec_render(rest)[k] by {}
            assert(r.subrange(h.len() as int + 1, r.len() as int) =~= spec_render(rest));
            lemma_sub_sub(s, i, r, h.len() as int + 1, r.len() as int);
            assert(s.subrange(j + 1, len) == spec_render(rest));
        }
        lemma_tokenize_render_tail(s, j, rest);
        match t0 {
            Token::Num(r0) => {
                lemma_rat_chars_head(r0);
                assert(s[i] == h[0]) by {
                    lemma_sub_at(s, i, h, 0);
                }
                assert(is_digit(s[i]));
                if ts.len() == 1 {
                    lemma_scan_rat_text(s, i, r0);
                } else {
                    assert(!is_digit(s[j]) && s[j] != '.');
                    lemma_scan_rat_text(s, i, r0);
                }
                assert(Rat { num: ((r0.num as int) as i64), den: ((r0.den as int) as i64) } == r0);
                assert(spec_tokenize_from(s, i) == crate::token::spec_cons(
                    Token::Num(r0),
                    spec_tokenize_from(s, j),
                ));
            },
            Token::LParen => {
                lemma_sub_at(s, i, h, 0);
                assert(s[i] == '(');
                assert(spec_tokenize_from(s, i) == crate::token::spec_cons(
                    Token::LParen,
                    spec_tokenize_from(s, i + 1),
                ));
            },
            Token::RParen => {
                lemma_sub_at(s, i, h, 0);
                assert(s[i] == ')');
            },
            Token::OpTok(op) => {
                lemma_sub_at(s, i, h, 0);
                match op {
                    Operator::IDIV => {
                        assert(h == seq!['/', '/']);
                        assert(s[i] == '/');
                        lemma_sub_at(s, i, h, 1);
                        assert(s[i + 1] == '/');
                    },
                    Operator::DIV => {
                        assert(s[i] == '/');
                        if i + 1 < len {
                            assert(s[i + 1] == ' ');
                        }
                    },
                    _ => {},
                }
            },
        }
        assert(seq![t0] + rest =~= ts);
    }
}

/// A rendered literal's text is nonempty and starts with a digit when the
/// numerator is nonnegative.
proof fn lemma_rat_chars_head(r: Rat)
    requires
        tok_wf(Token::Num(r)),
    ensures
        spec_rat_chars(r).len() >= 1,
        is_digit(spec_rat_chars(r)[0]),
{
    let num = r.num as int;
    let den = r.den as int;
    lemma_pow10_shape(den);
    if den == 1 {
        lemma_int_chars_digits(num);
        assert(spec_rat_chars(r) =~= spec_int_chars(num));
    } else {
        vstd::arithmetic::div_mod::lemma_fundamental_div_mod(num, den);
        vstd::arithmetic::div_mod::lemma_mod_bound(num, den);
        let ip = num / den;
        assert(ip >= 0) by (nonlinear_arith)
            requires
                num == den * ip + num % den,
                0 <= num % den < den,
                num >= 0,
                den >= 1,
        ;
        lemma_int_chars_digits(ip);
        let a = spec_int_chars(ip);
        assert(spec_rat_chars(r) == a + seq!['.'] + spec_frac_chars(
            num % den,
            pow10_width(den),
        ));
        assert(spec_rat_chars(r)[0] == a[0]);
    }
}

/// Round-trip: parsing the printed form of a well-formed tree within the
/// depth limit yields the identical tree.
pub proof fn lemma_pretty_parse_roundtrip(e: Expr)
    requires
        e.wf(),
        e.pdepth() < MAX_DEPTH,
    ensures
        spec_parse(ptoks(e)) == Ok::<Expr, ParseError>(e),
{
    let toks = ptoks(e);
    let len = toks.len() as int;
    lemma_ptoks_len(e);
    assert(toks.subrange(0, len) =~= toks);
    lemma_print_parse_primary(toks, 0, e, MAX_DEPTH as int);
    assert(clamp_after(0, len, len) == len);
    assert(spec_parse_loop(toks, len, 0, e, MAX_DEPTH as int) == Ok::<(Expr, int), ParseError>(
        (e, len),
    ));
    assert(spec_parse_expr(toks, 0, 0, MAX_DEPTH as int) == Ok::<(Expr, int), ParseError>(
        (e, len),
    ));
}

/// A well-formed printable tree prints well-formed tokens.
proof fn lemma_ptoks_printable(e: Expr)
    requires
        e.wf(),
        e.printable(),
    ensures
        toks_wf(ptoks(e)),
    decreases e,
{
    let s = ptoks(e);
    match e {
        Expr::Literal(r) => {
            assert(tok_wf(s[0]));
            assert forall|k: int| 0 <= k < s.len() implies tok_wf(#[trigger] s[k]) by {}
        },
        Expr::Binary(l, op, r) => {
            lemma_ptoks_printable(*l);
            lemma_ptoks_printable(*r);
            let a = ptoks(*l);
            let b = ptoks(*r);
            let la = a.len() as int;
            let lb = b.len() as int;
            assert forall|k: int| 0 <= k < s.len() implies tok_wf(#[trigger] s[k]) by {
                if 1 <= k < 1 + la {
                    assert(s[k] == a[k - 1]);
                    assert(tok_wf(a[k - 1]));
                } else if 2 + la <= k < 2 + la + lb {
                    assert(s[k] == b[k - 2 - la]);
                    assert(tok_wf(b[k - 2 - la]));
                }
            }
        },
        Expr::Unary(x, _op) => {
            lemma_ptoks_printable(*x);
            let a = ptoks(*x);
            let la = a.len() as int;
            assert forall|k: int| 0 <= k < s.len() implies tok_wf(#[trigger] s[k]) by {
                if 1 <= k < 1 + la {
                    assert(s[k] == a[k - 1]);
                    assert(tok_wf(a[k - 1]));
                }
            }
        },
    }
}

/// Tokenizing the rendered text of a printable tree's printed form gives
/// back exactly the printed tokens.
pub proof fn lemma_render_retokenizes(e: Expr)
    requires
        e.wf(),
        e.printable(),
    ensures
        spec_tokenize(spec_render(ptoks(e))) == Ok::<Seq<Token>, crate::errors::ParseError>(
            ptoks(e),
        ),
{
    lemma_ptoks_printable(e);
    let s = spec_render(ptoks(e));
    assert(s.subrange(0, s.len() as int) =~= s);
    lemma_tokenize_render(s, 0, ptoks(e));
}

/// Round-trip through text: any successfully parsed tree within the depth
/// limit pretty-prints to text that re-tokenizes to its printed tokens and
/// re-parses to the structurally identical tree.
pub proof fn lemma_text_roundtrip(toks: Seq<Token>, e: Expr)
    requires
        toks_wf(toks),
        spec_parse(toks) == Ok::<Expr, ParseError>(e),
        e.pdepth() < MAX_DEPTH,
    ensures
        spec_tokenize(spec_render(ptoks(e))) == Ok::<Seq<Token>, crate::errors::ParseError>(
            ptoks(e),
        ),
        spec_parse(ptoks(e)) == Ok::<Expr, ParseError>(e),
{
    crate::parse::lemma_parse_wf(toks);
    lemma_render_retokenizes(e);
    lemma_pretty_parse_roundtrip(e);
}

} // verus!
