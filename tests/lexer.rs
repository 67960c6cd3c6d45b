use minicalc::lexer::{next_token, Buffer, LexError, Token, TokenType};

#[test]
fn test1_lexer() {
    let test1 = "( + * print  \n\n43257)   ";
    let mut buffer1 = Buffer::create_com_string(test1);
    assert_eq!(next_token(&mut buffer1), Ok(Token { kind: TokenType::BeginParethesis, line: 1 }));
    assert_eq!(next_token(&mut buffer1), Ok(Token { kind: TokenType::Sum, line: 1 }));
    assert_eq!(next_token(&mut buffer1), Ok(Token { kind: TokenType::Asterisk, line: 1 }));
    assert_eq!(next_token(&mut buffer1), Ok(Token { kind: TokenType::Print, line: 1 }));
    assert_eq!(next_token(&mut buffer1), Ok(Token { kind: TokenType::Integer(43257), line: 3 }));
    assert_eq!(next_token(&mut buffer1), Ok(Token { kind: TokenType::CloseParenthesis, line: 3 }));
    assert_eq!(next_token(&mut buffer1), Ok(Token { kind: TokenType::Eof, line: 3 }));
}

#[test]
fn test2_lexer() {
    let test2 = "print (4 * (39 + 3))";
    let mut buffer2 = Buffer::create_com_string(test2);
    assert_eq!(next_token(&mut buffer2), Ok(Token { kind: TokenType::Print, line: 1 }));
    assert_eq!(next_token(&mut buffer2), Ok(Token { kind: TokenType::BeginParethesis, line: 1 }));
    assert_eq!(next_token(&mut buffer2), Ok(Token { kind: TokenType::Integer(4), line: 1 }));
    assert_eq!(next_token(&mut buffer2), Ok(Token { kind: TokenType::Asterisk, line: 1 }));
    assert_eq!(next_token(&mut buffer2), Ok(Token { kind: TokenType::BeginParethesis, line: 1 }));
    assert_eq!(next_token(&mut buffer2), Ok(Token { kind: TokenType::Integer(39), line: 1 }));
    assert_eq!(next_token(&mut buffer2), Ok(Token { kind: TokenType::Sum, line: 1 }));
    assert_eq!(next_token(&mut buffer2), Ok(Token { kind: TokenType::Integer(3), line: 1 }));
    assert_eq!(next_token(&mut buffer2), Ok(Token { kind: TokenType::CloseParenthesis, line: 1 }));
    assert_eq!(next_token(&mut buffer2), Ok(Token { kind: TokenType::CloseParenthesis, line: 1 }));
    assert_eq!(next_token(&mut buffer2), Ok(Token { kind: TokenType::Eof, line: 1 }));
}

#[test]
fn unrecognized_keyword_names_the_word() {
    let mut buffer = Buffer::create_com_string("prin 42");
    assert_eq!(
        next_token(&mut buffer),
        Err(LexError::UnrecognizedKeyword { word: String::from("prin"), line: 1 })
    );
}

#[test]
fn unexpected_character_names_the_character() {
    let mut buffer = Buffer::create_com_string("\n  $");
    assert_eq!(next_token(&mut buffer), Err(LexError::UnexpectedCharacter { ch: '$', line: 2 }));
}

#[test]
fn largest_literal_is_accepted() {
    let mut buffer = Buffer::create_com_string("9223372036854775807");
    assert_eq!(
        next_token(&mut buffer),
        Ok(Token { kind: TokenType::Integer(i64::MAX), line: 1 })
    );
}

#[test]
fn literal_past_the_largest_overflows() {
    let mut buffer = Buffer::create_com_string(" 9223372036854775808+");
    assert_eq!(
        next_token(&mut buffer),
        Err(LexError::NumericOverflow { digits: String::from("9223372036854775808"), line: 1 })
    );
    assert_eq!(next_token(&mut buffer), Ok(Token { kind: TokenType::Sum, line: 1 }));
}

#[test]
fn line_counts_newlines_before_the_token() {
    let mut buffer = Buffer::create_com_string("\n\r\n \t\n(");
    assert_eq!(
        next_token(&mut buffer),
        Ok(Token { kind: TokenType::BeginParethesis, line: 4 })
    );
    assert_eq!(buffer.line(), 4);
}

#[test]
fn end_of_input_repeats() {
    let mut buffer = Buffer::create_com_string("42 \n");
    assert_eq!(next_token(&mut buffer), Ok(Token { kind: TokenType::Integer(42), line: 1 }));
    for _ in 0..4 {
        assert_eq!(next_token(&mut buffer), Ok(Token { kind: TokenType::Eof, line: 2 }));
        assert!(buffer.is_end());
    }
}

#[test]
fn empty_input_is_end_of_input() {
    let mut buffer = Buffer::create_com_string("");
    assert!(buffer.is_end());
    assert_eq!(next_token(&mut buffer), Ok(Token::eof(1)));
    assert_eq!(next_token(&mut buffer), Ok(Token::eof(1)));
}

#[test]
fn unicode_whitespace_is_skipped() {
    let mut buffer = Buffer::create_com_string("\u{A0}\u{3000}+");
    assert_eq!(next_token(&mut buffer), Ok(Token::symbol(TokenType::Sum, 1)));
}

#[test]
fn buffer_reads_characters_in_order() {
    let mut buffer = Buffer::create_com_string("a\nb");
    assert_eq!(buffer.peek_char(), Some(&'a'));
    assert_eq!(buffer.next_char(), Some('a'));
    assert_eq!(buffer.next_char(), Some('\n'));
    assert_eq!(buffer.line(), 2);
    buffer.empty_space();
    assert_eq!(buffer.next_char(), Some('b'));
    assert_eq!(buffer.next_char(), None);
    assert!(buffer.is_end());
}

#[test]
fn try_create_accepts_ordinary_text() {
    let mut buffer = Buffer::try_create("print 7").unwrap();
    assert_eq!(next_token(&mut buffer), Ok(Token::symbol(TokenType::Print, 1)));
    assert_eq!(next_token(&mut buffer), Ok(Token::symbol(TokenType::Integer(7), 1)));
}
