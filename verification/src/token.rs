//! The tokenizer: a character-level scan of the source string into numbers,
//! operator symbols and parentheses. Whitespace separates tokens but is not
//! required around single-character operators or parentheses, so `(3+4)`
//! scans the same way as `( 3 + 4 )`.

use crate::ast::Rat;
use crate::errors::{ParseError, ParseErrorKind};
use crate::ops::Operator;
use vstd::prelude::*;

verus! {

/// One lexical token of an expression.
#[derive(Clone, Copy, Debug, PartialEq, Eq, Structural)]
pub enum Token {
    /// A numeric literal, as the exact rational it denotes.
    Num(Rat),
    /// An operator symbol.
    OpTok(Operator),
    LParen,
    RParen,
}

pub open spec fn is_digit(c: char) -> bool {
    '0' <= c && c <= '9'
}

pub open spec fn digit_val(c: char) -> int {
    c as int - '0' as int
}

/// A positive power of ten, the denominators decimal literals produce.
pub open spec fn is_pow10(d: int) -> bool
    decreases d,
{
    if d == 1 {
        true
    } else if d >= 10 && d % 10 == 0 {
        is_pow10(d / 10)
    } else {
        false
    }
}

/// Scans a run of digits starting at `i`, folding them into `acc`; stops at
/// the first non-digit. Fails when the value would leave the engine's range.
pub open spec fn spec_scan_digits(s: Seq<char>, i: int, acc: int) -> Result<
    (int, int),
    ParseError,
>
    decreases s.len() - i,
{
    if 0 <= i < s.len() && is_digit(s[i]) {
        let a2 = acc * 10 + digit_val(s[i]);
        if a2 > i64::MAX {
            Err(ParseError { kind: ParseErrorKind::NumberTooLarge, pos: i as usize })
        } else {
            spec_scan_digits(s, i + 1, a2)
        }
    } else {
        Ok((acc, i))
    }
}

/// Scans the fractional digits after the decimal point, folding them into
/// the numerator while the denominator keeps pace as a power of ten.
pub open spec fn spec_scan_frac(s: Seq<char>, i: int, acc: int, den: int) -> Result<
    (int, int, int),
    ParseError,
>
    decreases s.len() - i,
{
    if 0 <= i < s.len() && is_digit(s[i]) {
        let a2 = acc * 10 + digit_val(s[i]);
        let d2 = den * 10;
        if a2 > i64::MAX || d2 > i64::MAX {
            Err(ParseError { kind: ParseErrorKind::NumberTooLarge, pos: i as usize })
        } else {
            spec_scan_frac(s, i + 1, a2, d2)
        }
    } else {
        Ok((acc, den, i))
    }
}

/// Scans one numeric literal (integer, or decimal with at least one digit on
/// each side of the point) starting at the digit at `i`. On success: the
/// value as numerator and denominator, and the index just past the literal.
pub open spec fn spec_scan_number(s: Seq<char>, i: int) -> Result<((int, int), int), ParseError> {
    match spec_scan_digits(s, i, 0) {
        Err(e) => Err(e),
        Ok((a, j)) => if j < s.len() && s[j] == '.' {
            if j + 1 < s.len() && is_digit(s[j + 1]) {
                match spec_scan_frac(s, j + 1, a, 1) {
                    Err(e) => Err(e),
                    Ok((a2, d2, k)) => Ok(((a2, d2), k)),
                }
            } else {
                Err(ParseError { kind: ParseErrorKind::UnexpectedChar, pos: j as usize })
            }
        } else {
            Ok(((a, 1), j))
        },
    }
}

pub open spec fn is_space(c: char) -> bool {
    c == ' ' || c == '\t' || c == '\n' || c == '\r'
}

/// The token sequence from position `i` on: skips whitespace, reads `//`
/// before `/`, reads maximal digit runs as numbers, and fails on any other
/// character.
pub open spec fn spec_tokenize_from(s: Seq<char>, i: int) -> Result<Seq<Token>, ParseError>
    decreases s.len() - i,
{
    if !(0 <= i < s.len()) {
        Ok(Seq::empty())
    } else {
        let c = s[i];
        if is_space(c) {
            spec_tokenize_from(s, i + 1)
        } else if c == '(' {
            spec_cons(Token::LParen, spec_tokenize_from(s, i + 1))
        } else if c == ')' {
            spec_cons(Token::RParen, spec_tokenize_from(s, i + 1))
        } else if c == '+' {
            spec_cons(Token::OpTok(Operator::ADD), spec_tokenize_from(s, i + 1))
        } else if c == '-' {
            spec_cons(Token::OpTok(Operator::SUB), spec_tokenize_from(s, i + 1))
        } else if c == '*' {
            spec_cons(Token::OpTok(Operator::MULT), spec_tokenize_from(s, i + 1))
        } else if c == '^' {
            spec_cons(Token::OpTok(Operator::EXP), spec_tokenize_from(s, i + 1))
        } else if c == '!' {
            spec_cons(Token::OpTok(Operator::FACT), spec_tokenize_from(s, i + 1))
        } else if c == '/' {
            if i + 1 < s.len() && s[i + 1] == '/' {
                spec_cons(Token::OpTok(Operator::IDIV), spec_tokenize_from(s, i + 2))
            } else {
                spec_cons(Token::OpTok(Operator::DIV), spec_tokenize_from(s, i + 1))
            }
        } else if is_digit(c) {
            match spec_scan_number(s, i) {
                Err(e) => Err(e),
                Ok((nd, j)) => {
                    let j2 = if i < j <= s.len() {
                        j
                    } else {
                        i + 1
                    };
                    spec_cons(
                        Token::Num(Rat { num: nd.0 as i64, den: nd.1 as i64 }),
                        spec_tokenize_from(s, j2),
                    )
                },
            }
        } else {
            Err(ParseError { kind: ParseErrorKind::UnexpectedChar, pos: i as usize })
        }
    }
}

pub open spec fn spec_cons(t: Token, rest: Result<Seq<Token>, ParseError>) -> Result<
    Seq<Token>,
    ParseError,
> {
    match rest {
        Ok(ts) => Ok(seq![t] + ts),
        Err(e) => Err(e),
    }
}

/// The tokens of a whole source string.
pub open spec fn spec_tokenize(s: Seq<char>) -> Result<Seq<Token>, ParseError> {
    spec_tokenize_from(s, 0)
}

/// Every number token the scanner produces is a well-formed nonnegative
/// rational with a power-of-ten denominator.
pub open spec fn tok_wf(t: Token) -> bool {
    match t {
        Token::Num(r) => r.wf() && r.num >= 0 && is_pow10(r.den as int),
        _ => true,
    }
}

pub open spec fn toks_wf(ts: Seq<Token>) -> bool {
    forall|k: int| 0 <= k < ts.len() ==> tok_wf(ts[k])
}

/// A scanned number's digits stay in range and the scan makes progress.
pub proof fn lemma_scan_digits_range(s: Seq<char>, i: int, acc: int)
    requires
        0 <= i <= s.len(),
        0 <= acc <= i64::MAX,
    ensures
        spec_scan_digits(s, i, acc) matches Ok((a, j)) ==> i <= j <= s.len() && 0 <= a
            <= i64::MAX,
    decreases s.len() - i,
{
    if 0 <= i < s.len() && is_digit(s[i]) {
        let a2 = acc * 10 + digit_val(s[i]);
        if a2 <= i64::MAX {
            lemma_scan_digits_range(s, i + 1, a2);
        }
    }
}

/// A scanned fraction's parts stay in range and the scan makes progress.
pub proof fn lemma_scan_frac_range(s: Seq<char>, i: int, acc: int, den: int)
    requires
        0 <= i <= s.len(),
        0 <= acc <= i64::MAX,
        1 <= den <= i64::MAX,
        is_pow10(den),
    ensures
        spec_scan_frac(s, i, acc, den) matches Ok((a, d, j)) ==> i <= j <= s.len() && 0 <= a
            <= i64::MAX && 1 <= d <= i64::MAX && is_pow10(d),
    decreases s.len() - i,
{
    if 0 <= i < s.len() && is_digit(s[i]) {
        let a2 = acc * 10 + digit_val(s[i]);
        let d2 = den * 10;
        if a2 <= i64::MAX && d2 <= i64::MAX {
            assert(is_pow10(d2)) by {
                assert(d2 >= 10 && d2 % 10 == 0 && d2 / 10 == den);
            }
            lemma_scan_frac_range(s, i + 1, a2, d2);
        }
    }
}

/// A scanned number is a well-formed nonnegative rational with a
/// power-of-ten denominator, and the scan consumed at least one character.
pub proof fn lemma_scan_number_range(s: Seq<char>, i: int)
    requires
        0 <= i < s.len(),
        is_digit(s[i]),
    ensures
        spec_scan_number(s, i) matches Ok((nd, j)) ==> i < j <= s.len() && 0 <= nd.0 <= i64::MAX
            && 1 <= nd.1 <= i64::MAX && is_pow10(nd.1),
{
    lemma_scan_digits_range(s, i, 0);
    if let Ok((a, j)) = spec_scan_digits(s, i, 0) {
        assert(j > i) by {
            assert(spec_scan_digits(s, i, 0) == if 0 + 10 * 0 + digit_val(s[i]) > i64::MAX {
                Err::<(int, int), ParseError>(
                    ParseError { kind: ParseErrorKind::NumberTooLarge, pos: i as usize },
                )
            } else {
                spec_scan_digits(s, i + 1, digit_val(s[i]))
            });
            lemma_scan_digits_range(s, i + 1, digit_val(s[i]));
        }
        if j < s.len() && s[j] == '.' {
            if j + 1 < s.len() && is_digit(s[j + 1]) {
                lemma_scan_frac_range(s, j + 1, a, 1);
            }
        }
    }
}

fn scan_digits(s: &str, n: usize, i0: usize, acc0: i64) -> (r: Result<(i64, usize), ParseError>)
    requires
        n == s@.len(),
        i0 <= n,
        0 <= acc0,
    ensures
        match r {
            Ok((a, j)) => spec_scan_digits(s@, i0 as int, acc0 as int) == Ok::<
                (int, int),
                ParseError,
            >((a as int, j as int)) && i0 <= j <= n && 0 <= a,
            Err(e) => spec_scan_digits(s@, i0 as int, acc0 as int) == Err::<(int, int), ParseError>(
                e,
            ),
        },
{
    let mut i = i0;
    let mut acc = acc0;
    loop
        invariant
            i0 <= i <= n,
            n == s@.len(),
            0 <= acc,
            spec_scan_digits(s@, i0 as int, acc0 as int) == spec_scan_digits(
                s@,
                i as int,
                acc as int,
            ),
        decreases n - i,
    {
        if i < n {
            let c = s.get_char(i);
            if '0' <= c && c <= '9' {
                let d: i64 = (c as u32 - '0' as u32) as i64;
                let a2: i128 = (acc as i128) * 10 + (d as i128);
                if a2 > i64::MAX as i128 {
                    return Err(ParseError { kind: ParseErrorKind::NumberTooLarge, pos: i });
                } else {
                    proof {
                        assert(spec_scan_digits(s@, i as int, acc as int) == spec_scan_digits(
                            s@,
                            i + 1,
                            acc * 10 + digit_val(s@[i as int]),
                        ));
                    }
                    acc = a2 as i64;
                    i = i + 1;
                }
            } else {
                proof {
                    assert(spec_scan_digits(s@, i as int, acc as int) == Ok::<
                        (int, int),
                        ParseError,
                    >((acc as int, i as int)));
                }
                return Ok((acc, i));
            }
        } else {
            proof {
                assert(spec_scan_digits(s@, i as int, acc as int) == Ok::<(int, int), ParseError>(
                    (acc as int, i as int),
                ));
            }
            return Ok((acc, i));
        }
    }
}

fn scan_frac(s: &str, n: usize, i0: usize, acc0: i64, den0: i64) -> (r: Result<
    (i64, i64, usize),
    ParseError,
>)
    requires
        n == s@.len(),
        i0 <= n,
        0 <= acc0,
        1 <= den0,
    ensures
        match r {
            Ok((a, d, j)) => spec_scan_frac(s@, i0 as int, acc0 as int, den0 as int) == Ok::<
                (int, int, int),
                ParseError,
            >((a as int, d as int, j as int)) && i0 <= j <= n && 0 <= a && 1 <= d,
            Err(e) => spec_scan_frac(s@, i0 as int, acc0 as int, den0 as int) == Err::<
                (int, int, int),
                ParseError,
            >(e),
        },
{
    let mut i = i0;
    let mut acc = acc0;
    let mut den = den0;
    loop
        invariant
            i0 <= i <= n,
            n == s@.len(),
            0 <= acc,
            1 <= den,
            spec_scan_frac(s@, i0 as int, acc0 as int, den0 as int) == spec_scan_frac(
                s@,
                i as int,
                acc as int,
                den as int,
            ),
        decreases n - i,
    {
        if i < n {
            let c = s.get_char(i);
            if '0' <= c && c <= '9' {
                let d: i64 = (c as u32 - '0' as u32) as i64;
                let a2: i128 = (acc as i128) * 10 + (d as i128);
                let d2: i128 = (den as i128) * 10;
                if a2 > i64::MAX as i128 || d2 > i64::MAX as i128 {
                    return Err(ParseError { kind: ParseErrorKind::NumberTooLarge, pos: i });
                } else {
                    proof {
                        assert(spec_scan_frac(s@, i as int, acc as int, den as int)
                            == spec_scan_frac(
                            s@,
                            i + 1,
                            acc * 10 + digit_val(s@[i as int]),
                            den * 10,
                        ));
                    }
                    acc = a2 as i64;
                    den = d2 as i64;
                    i = i + 1;
                }
            } else {
                proof {
                    assert(spec_scan_frac(s@, i as int, acc as int, den as int) == Ok::<
                        (int, int, int),
                        ParseError,
                    >((acc as int, den as int, i as int)));
                }
                return Ok((acc, den, i));
            }
        } else {
            proof {
                assert(spec_scan_frac(s@, i as int, acc as int, den as int) == Ok::<
                    (int, int, int),
                    ParseError,
                >((acc as int, den as int, i as int)));
            }
            return Ok((acc, den, i));
        }
    }
}

fn scan_number(s: &str, n: usize, i: usize) -> (r: Result<(Rat, usize), ParseError>)
    requires
        n == s@.len(),
        i < n,
        is_digit(s@[i as int]),
    ensures
        match r {
            Ok((rat, j)) => spec_scan_number(s@, i as int) == Ok::<((int, int), int), ParseError>(
                ((rat.num as int, rat.den as int), j as int),
            ) && i < j <= n && rat.wf() && rat.num >= 0 && is_pow10(rat.den as int),
            Err(e) => spec_scan_number(s@, i as int) == Err::<((int, int), int), ParseError>(e),
        },
{
    proof {
        lemma_scan_number_range(s@, i as int);
    }
    match scan_digits(s, n, i, 0) {
        Err(e) => Err(e),
        Ok((a, j)) => {
            if j < n && s.get_char(j) == '.' {
                if j + 1 < n {
                    let c1 = s.get_char(j + 1);
                    if '0' <= c1 && c1 <= '9' {
                        match scan_frac(s, n, j + 1, a, 1) {
                            Err(e) => Err(e),
                            Ok((a2, d2, k)) => Ok((Rat { num: a2, den: d2 }, k)),
                        }
                    } else {
                        Err(ParseError { kind: ParseErrorKind::UnexpectedChar, pos: j })
                    }
                } else {
                    Err(ParseError { kind: ParseErrorKind::UnexpectedChar, pos: j })
                }
            } else {
                Ok((Rat { num: a, den: 1 }, j))
            }
        },
    }
}

/// Scans a whole source string into its token sequence, or reports the first
/// lexical failure with its character position.
pub fn tokenize(s: &str) -> (r: Result<Vec<Token>, ParseError>)
    ensures
        match r {
            Ok(v) => spec_tokenize(s@) == Ok::<Seq<Token>, ParseError>(v@) && toks_wf(v@),
            Err(e) => spec_tokenize(s@) == Err::<Seq<Token>, ParseError>(e),
        },
{
    let n = s.unicode_len();
    let mut toks: Vec<Token> = Vec::new();
    let mut i: usize = 0;
    proof {
        assert(toks@ =~= Seq::<Token>::empty());
    }
    loop
        invariant
            i <= n,
            n == s@.len(),
            toks_wf(toks@),
            match spec_tokenize_from(s@, i as int) {
                Ok(ts) => spec_tokenize_from(s@, 0) == Ok::<Seq<Token>, ParseError>(toks@ + ts),
                Err(e) => spec_tokenize_from(s@, 0) == Err::<Seq<Token>, ParseError>(e),
            },
        decreases n - i,
    {
        if i >= n {
            proof {
                assert(spec_tokenize_from(s@, i as int) == Ok::<Seq<Token>, ParseError>(
                    Seq::empty(),
                ));
                assert(toks@ + Seq::<Token>::empty() =~= toks@);
            }
            return Ok(toks);
        }
        let ghost i_old = i as int;
        let ghost toks_old = toks@;
        let c = s.get_char(i);
        if c == ' ' || c == '\t' || c == '\n' || c == '\r' {
            i = i + 1;
        } else if c == '(' {
            toks.push(Token::LParen);
            i = i + 1;
            proof {
                lemma_tok_step(s@, i_old, toks_old, Token::LParen, i_old + 1);
            }
        } else if c == ')' {
            toks.push(Token::RParen);
            i = i + 1;
            proof {
                lemma_tok_step(s@, i_old, toks_old, Token::RParen, i_old + 1);
            }
        } else if c == '+' {
            toks.push(Token::OpTok(Operator::ADD));
            i = i + 1;
            proof {
                lemma_tok_step(s@, i_old, toks_old, Token::OpTok(Operator::ADD), i_old + 1);
            }
        } else if c == '-' {
            toks.push(Token::OpTok(Operator::SUB));
            i = i + 1;
            proof {
                lemma_tok_step(s@, i_old, toks_old, Token::OpTok(Operator::SUB), i_old + 1);
            }
        } else if c == '*' {
            toks.push(Token::OpTok(Operator::MULT));
            i = i + 1;
            proof {
                lemma_tok_step(s@, i_old, toks_old, Token::OpTok(Operator::MULT), i_old + 1);
            }
        } else if c == '^' {
            toks.push(Token::OpTok(Operator::EXP));
            i = i + 1;
            proof {
                lemma_tok_step(s@, i_old, toks_old, Token::OpTok(Operator::EXP), i_old + 1);
            }
        } else if c == '!' {
            toks.push(Token::OpTok(Operator::FACT));
            i = i + 1;
            proof {
                lemma_tok_step(s@, i_old, toks_old, Token::OpTok(Operator::FACT), i_old + 1);
            }
        } else if c == '/' {
            if i + 1 < n && s.get_char(i + 1) == '/' {
                toks.push(Token::OpTok(Operator::IDIV));
                i = i + 2;
                proof {
                    lemma_tok_step(s@, i_old, toks_old, Token::OpTok(Operator::IDIV), i_old + 2);
                }
            } else {
                toks.push(Token::OpTok(Operator::DIV));
                i = i + 1;
                proof {
                    lemma_tok_step(s@, i_old, toks_old, Token::OpTok(Operator::DIV), i_old + 1);
                }
            }
        } else if '0' <= c && c <= '9' {
            match scan_number(s, n, i) {
                Err(e) => {
                    proof {
                        assert(spec_tokenize_from(s@, i_old) == Err::<Seq<Token>, ParseError>(e));
                    }
                    return Err(e);
                },
                Ok((rat, j)) => {
                    proof {
                        assert(Rat {
                            num: (rat.num as int) as i64,
                            den: (rat.den as int) as i64,
                        } == rat);
                    }
                    toks.push(Token::Num(rat));
                    i = j;
                    proof {
                        lemma_tok_step(s@, i_old, toks_old, Token::Num(rat), j as int);
                    }
                },
            }
        } else {
            let e = ParseError { kind: ParseErrorKind::UnexpectedChar, pos: i };
            proof {
                assert(spec_tokenize_from(s@, i_old) == Err::<Seq<Token>, ParseError>(e));
            }
            return Err(e);
        }
    }
}

/// One tokenizer step: when position `i` yields token `t` and the scan
/// resumes at `j`, the whole-string relation carries from `i` to `j`.
proof fn lemma_tok_step(s: Seq<char>, i: int, done: Seq<Token>, t: Token, j: int)
    requires
        spec_tokenize_from(s, i) == spec_cons(t, spec_tokenize_from(s, j)),
        match spec_tokenize_from(s, i) {
            Ok(ts) => spec_tokenize_from(s, 0) == Ok::<Seq<Token>, ParseError>(done + ts),
            Err(e) => spec_tokenize_from(s, 0) == Err::<Seq<Token>, ParseError>(e),
        },
    ensures
        match spec_tokenize_from(s, j) {
            Ok(ts) => spec_tokenize_from(s, 0) == Ok::<Seq<Token>, ParseError>(done.push(t) + ts),
            Err(e) => spec_tokenize_from(s, 0) == Err::<Seq<Token>, ParseError>(e),
        },
{
    match spec_tokenize_from(s, j) {
        Ok(ts) => {
            assert(done + (seq![t] + ts) =~= done.push(t) + ts);
        },
        Err(e) => {},
    }
}

} // verus!
