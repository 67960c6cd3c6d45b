use vstd::prelude::*;

use crate::lexer::{Scan, 
    lemma_scan_bounds, lemma_space_end_bounds, lex_outcome, space_end, next_token, scan, Buffer, LexError, Lexed, Token, TokenType,
};

verus! {

/// An expression tree.
#[derive(Debug, PartialEq, Eq)]
pub enum Expression {
    Constant(i64),
    Sum(Box<Expression>, Box<Expression>),
    Multiply(Box<Expression>, Box<Expression>),
}

/// A binary operator.
#[derive(Debug, Clone, Copy, PartialEq, Eq, Structural)]
pub enum Operator {
    Sum,
    Multiply,
}

/// A parse error: a lexical error, or the token found where another was needed.
#[derive(Debug, PartialEq, Eq)]
pub enum ParseError {
    Lex(LexError),
    ExpectedPrintKeyword(Token),
    UnexpectedToken(Token),
    ExpectedOperator(Token),
    ExpectedCloseParen(Token),
}

/// The meaning of a [`ParseError`].
pub enum Failure {
    Lex(Lexed, nat),
    ExpectedPrintKeyword(Token),
    UnexpectedToken(Token),
    ExpectedOperator(Token),
    ExpectedCloseParen(Token),
}

/// The outcome of parsing from a position: a tree and the position after it, or a failure.
pub enum Parsed {
    Done(Expression, int),
    Failed(Failure),
}

pub open spec fn failure_of(e: ParseError) -> Failure {
    match e {
        ParseError::Lex(l) => Failure::Lex(lex_outcome(Err(l)).0, lex_outcome(Err(l)).1),
        ParseError::ExpectedPrintKeyword(t) => Failure::ExpectedPrintKeyword(t),
        ParseError::UnexpectedToken(t) => Failure::UnexpectedToken(t),
        ParseError::ExpectedOperator(t) => Failure::ExpectedOperator(t),
        ParseError::ExpectedCloseParen(t) => Failure::ExpectedCloseParen(t),
    }
}

/// Whether result `r`, with the cursor left at `end`, is the outcome `p`.
pub open spec fn parsed_as(r: Result<Expression, ParseError>, end: int, p: Parsed) -> bool {
    match p {
        Parsed::Done(e, stop) => r == Ok::<Expression, ParseError>(e) && end == stop,
        Parsed::Failed(f) => r is Err && failure_of(r->Err_0) == f,
    }
}

/// The token that a lexer step found (meaningful when it found one).
pub open spec fn token_of(t: Scan) -> Token {
    match t.lexed {
        Lexed::Token(kind) => Token { kind, line: t.line as usize },
        _ => Token { kind: TokenType::Eof, line: t.line as usize },
    }
}

pub open spec fn operator_of(k: TokenType) -> Option<Operator> {
    match k {
        TokenType::Sum => Some(Operator::Sum),
        TokenType::Asterisk => Some(Operator::Multiply),
        _ => None,
    }
}

pub open spec fn combine(op: Operator, l: Expression, r: Expression) -> Expression {
    match op {
        Operator::Sum => Expression::Sum(Box::new(l), Box::new(r)),
        Operator::Multiply => Expression::Multiply(Box::new(l), Box::new(r)),
    }
}

/// Parsing one expression of `s` from position `pos`:
/// `expression := INTEGER | "(" expression ("+" | "*") expression ")"`.
pub open spec fn expr_at(s: Seq<char>, pos: int) -> Parsed
    decreases s.len() - pos,
{
    let t = scan(s, pos);
    match t.lexed {
        Lexed::Token(TokenType::Integer(n)) => Parsed::Done(Expression::Constant(n), t.end),
        Lexed::Token(TokenType::BeginParethesis) => {
            if pos < t.end <= s.len() {
                match expr_at(s, t.end) {
                    Parsed::Done(left, e1) => {
                        let o = scan(s, e1);
                        match o.lexed {
                            Lexed::Token(k) => {
                                if operator_of(k) is None {
                                    Parsed::Failed(Failure::ExpectedOperator(token_of(o)))
                                } else if pos < o.end <= s.len() {
                                    match expr_at(s, o.end) {
                                        Parsed::Done(right, e2) => {
                                            let c = scan(s, e2);
                                            match c.lexed {
                                                Lexed::Token(TokenType::CloseParenthesis) => Parsed::Done(
                                                    combine(operator_of(k)->0, left, right),
                                                    c.end,
                                                ),
                                                Lexed::Token(_) => Parsed::Failed(
                                                    Failure::ExpectedCloseParen(token_of(c)),
                                                ),
                                                other => Parsed::Failed(Failure::Lex(other, c.line)),
                                            }
                                        },
                                        failed => failed,
                                    }
                                } else {
                                    arbitrary()
                                }
                            },
                            other => Parsed::Failed(Failure::Lex(other, o.line)),
                        }
                    },
                    failed => failed,
                }
            } else {
                arbitrary()
            }
        },
        Lexed::Token(_) => Parsed::Failed(Failure::UnexpectedToken(token_of(t))),
        other => Parsed::Failed(Failure::Lex(other, t.line)),
    }
}

/// Parsing a program of `s` from position `pos`: `program := "print" expression`.
pub open spec fn program_at(s: Seq<char>, pos: int) -> Parsed {
    let t = scan(s, pos);
    match t.lexed {
        Lexed::Token(TokenType::Print) => expr_at(s, t.end),
        Lexed::Token(_) => Parsed::Failed(Failure::ExpectedPrintKeyword(token_of(t))),
        other => Parsed::Failed(Failure::Lex(other, t.line)),
    }
}

/// A parsed expression ends after where it starts, within the text.
pub proof fn lemma_expr_bounds(s: Seq<char>, pos: int)
    requires
        0 <= pos <= s.len(),
    ensures
        expr_at(s, pos) matches Parsed::Done(_, end) ==> pos <= space_end(s, pos) < end <= s.len(),
    decreases s.len() - pos,
{
    lemma_space_end_bounds(s, pos);
    let t = scan(s, pos);
    lemma_scan_bounds(s, pos);
    if t.lexed == Lexed::Token(TokenType::BeginParethesis) {
        lemma_expr_bounds(s, t.end);
        if let Parsed::Done(_, e1) = expr_at(s, t.end) {
            let o = scan(s, e1);
            lemma_scan_bounds(s, e1);
            if o.lexed is Token && o.lexed->Token_0 != TokenType::Eof {
                lemma_expr_bounds(s, o.end);
                if let Parsed::Done(_, e2) = expr_at(s, o.end) {
                    lemma_scan_bounds(s, e2);
                }
            }
        }
    }
}

/// Parses one expression.
pub fn evaluate(buffer: &mut Buffer) -> (r: Result<Expression, ParseError>)
    requires
        old(buffer).wf(),
    ensures
        final(buffer).wf(),
        final(buffer).text() == old(buffer).text(),
        parsed_as(r, final(buffer).cursor(), expr_at(old(buffer).text(), old(buffer).cursor())),
    decreases old(buffer).text().len() - old(buffer).cursor(),
{
    let ghost s = buffer.text();
    let ghost pos = buffer.cursor();
    proof {
        lemma_scan_bounds(s, pos);
    }
    let tok = match next_token(buffer) {
        Ok(t) => t,
        Err(e) => {
            return Err(ParseError::Lex(e));
        },
    };
    match tok.kind {
        TokenType::Integer(n) => Ok(Expression::Constant(n)),
        TokenType::BeginParethesis => {
            let ghost e0 = buffer.cursor();
            proof {
                lemma_expr_bounds(s, e0);
            }
            let op1 = match evaluate(buffer) {
                Ok(e) => e,
                Err(err) => {
                    return Err(err);
                },
            };
            let ghost e1 = buffer.cursor();
            proof {
                lemma_scan_bounds(s, e1);
            }
            let tok = match next_token(buffer) {
                Ok(t) => t,
                Err(e) => {
                    return Err(ParseError::Lex(e));
                },
            };
            let operator = match tok.kind {
                TokenType::Sum => Operator::Sum,
                TokenType::Asterisk => Operator::Multiply,
                _ => {
                    return Err(ParseError::ExpectedOperator(tok));
                },
            };
            let ghost e2 = buffer.cursor();
            proof {
                lemma_expr_bounds(s, e2);
            }
            let op2 = match evaluate(buffer) {
                Ok(e) => e,
                Err(err) => {
                    return Err(err);
                },
            };
            proof {
                lemma_scan_bounds(s, buffer.cursor());
            }
            let tok = match next_token(buffer) {
                Ok(t) => t,
                Err(e) => {
                    return Err(ParseError::Lex(e));
                },
            };
            if tok.kind != TokenType::CloseParenthesis {
                return Err(ParseError::ExpectedCloseParen(tok));
            }
            match operator {
                Operator::Sum => Ok(Expression::Sum(Box::new(op1), Box::new(op2))),
                Operator::Multiply => Ok(Expression::Multiply(Box::new(op1), Box::new(op2))),
            }
        },
        _ => Err(ParseError::UnexpectedToken(tok)),
    }
}

/// Parses a program: the keyword `print` followed by one expression. Input after
/// the expression is not read.
pub fn parse(buffer: &mut Buffer) -> (r: Result<Expression, ParseError>)
    requires
        old(buffer).wf(),
    ensures
        final(buffer).wf(),
        final(buffer).text() == old(buffer).text(),
        parsed_as(
            r,
            final(buffer).cursor(),
            program_at(old(buffer).text(), old(buffer).cursor()),
        ),
{
    let tok = match next_token(buffer) {
        Ok(t) => t,
        Err(e) => {
            return Err(ParseError::Lex(e));
        },
    };
    if tok.kind != TokenType::Print {
        return Err(ParseError::ExpectedPrintKeyword(tok));
    }
    evaluate(buffer)
}

} // verus!
