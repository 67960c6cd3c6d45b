use minicalc::lexer::{Buffer, LexError, Token, TokenType};
use minicalc::parser::{parse, Expression, ParseError};

#[test]
fn parser_constant() {
    let mut buffer = Buffer::create_com_string("print 42");
    let tree = parse(&mut buffer);
    assert_eq!(tree, Ok(Expression::Constant(42)));
}

#[test]
fn sum() {
    let mut buffer = Buffer::create_com_string("print (4 + 7)");
    let tree = parse(&mut buffer);
    assert_eq!(
        tree,
        Ok(Expression::Sum(
            Box::new(Expression::Constant(4)),
            Box::new(Expression::Constant(7))
        ))
    );
}

#[test]
fn parser_calc() {
    let mut buffer = Buffer::create_com_string("print (4 + (39 * 6))");
    let tree = parse(&mut buffer);
    assert_eq!(
        tree,
        Ok(Expression::Sum(
            Box::new(Expression::Constant(4)),
            Box::new(Expression::Multiply(
                Box::new(Expression::Constant(39)),
                Box::new(Expression::Constant(6))
            ))
        ))
    );
}

#[test]
fn missing_close_paren() {
    let mut buffer = Buffer::create_com_string("print (4 + 7");
    assert_eq!(
        parse(&mut buffer),
        Err(ParseError::ExpectedCloseParen(Token { kind: TokenType::Eof, line: 1 }))
    );
}

#[test]
fn wrong_close_token() {
    let mut buffer = Buffer::create_com_string("print (4 + 7\n(");
    assert_eq!(
        parse(&mut buffer),
        Err(ParseError::ExpectedCloseParen(Token { kind: TokenType::BeginParethesis, line: 2 }))
    );
}

#[test]
fn misspelt_keyword() {
    let mut buffer = Buffer::create_com_string("prin 42");
    assert_eq!(
        parse(&mut buffer),
        Err(ParseError::Lex(LexError::UnrecognizedKeyword { word: String::from("prin"), line: 1 }))
    );
}

#[test]
fn program_must_start_with_print() {
    let mut buffer = Buffer::create_com_string("42");
    assert_eq!(
        parse(&mut buffer),
        Err(ParseError::ExpectedPrintKeyword(Token { kind: TokenType::Integer(42), line: 1 }))
    );
}

#[test]
fn expression_cannot_start_with_operator() {
    let mut buffer = Buffer::create_com_string("print\n+");
    assert_eq!(
        parse(&mut buffer),
        Err(ParseError::UnexpectedToken(Token { kind: TokenType::Sum, line: 2 }))
    );
}

#[test]
fn operator_required_between_operands() {
    let mut buffer = Buffer::create_com_string("print (1 2)");
    assert_eq!(
        parse(&mut buffer),
        Err(ParseError::ExpectedOperator(Token { kind: TokenType::Integer(2), line: 1 }))
    );
}

#[test]
fn lexical_error_inside_expression() {
    let mut buffer = Buffer::create_com_string("print (1 - 2)");
    assert_eq!(
        parse(&mut buffer),
        Err(ParseError::Lex(LexError::UnexpectedCharacter { ch: '-', line: 1 }))
    );
}

#[test]
fn trailing_input_is_not_read() {
    let mut buffer = Buffer::create_com_string("print 5 $ junk");
    assert_eq!(parse(&mut buffer), Ok(Expression::Constant(5)));
}

#[test]
fn extra_whitespace_gives_the_same_tree() {
    let mut a = Buffer::create_com_string("print (4 * (39 + 3))");
    let mut b = Buffer::create_com_string("  print\n(  4\n*(\t39 +3 )\n)\n");
    assert_eq!(parse(&mut a), parse(&mut b));
}
