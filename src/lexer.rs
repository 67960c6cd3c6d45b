use vstd::prelude::*;
use vstd::string::*;

verus! {

/// The kind of a token.
#[derive(Debug, Clone, Copy, PartialEq, Eq, Structural)]
pub enum TokenType {
    BeginParethesis,
    CloseParenthesis,
    Sum,
    Asterisk,
    Integer(i64),
    Print,
    Eof,
}

/// A token with the (1-based) line on which it was recognised.
#[derive(Debug, Clone, Copy, PartialEq, Eq, Structural)]
pub struct Token {
    pub kind: TokenType,
    pub line: usize,
}

impl Token {
    pub fn symbol(kind: TokenType, line: usize) -> (t: Token)
        ensures
            t == (Token { kind, line }),
    {
        Token { kind, line }
    }

    pub fn eof(line: usize) -> (t: Token)
        ensures
            t == (Token { kind: TokenType::Eof, line }),
    {
        Token { kind: TokenType::Eof, line }
    }
}

// ---------------------------------------------------------------------------
// Character classes

pub open spec fn is_digit(c: char) -> bool {
    '0' <= c && c <= '9'
}

pub open spec fn is_letter(c: char) -> bool {
    ('a' <= c && c <= 'z') || ('A' <= c && c <= 'Z')
}

/// The characters with the Unicode `White_Space` property.
pub open spec fn is_space(c: char) -> bool {
    ||| ('\t' <= c && c <= '\r')
    ||| c == ' '
    ||| c == '\u{85}'
    ||| c == '\u{A0}'
    ||| c == '\u{1680}'
    ||| ('\u{2000}' <= c && c <= '\u{200A}')
    ||| c == '\u{2028}'
    ||| c == '\u{2029}'
    ||| c == '\u{202F}'
    ||| c == '\u{205F}'
    ||| c == '\u{3000}'
}

pub fn is_digit_char(c: char) -> (r: bool)
    ensures
        r == is_digit(c),
{
    '0' <= c && c <= '9'
}

pub fn is_letter_char(c: char) -> (r: bool)
    ensures
        r == is_letter(c),
{
    ('a' <= c && c <= 'z') || ('A' <= c && c <= 'Z')
}

pub fn is_space_char(c: char) -> (r: bool)
    ensures
        r == is_space(c),
{
    ('\t' <= c && c <= '\r') || c == ' ' || c == '\u{85}' || c == '\u{A0}' || c == '\u{1680}'
        || ('\u{2000}' <= c && c <= '\u{200A}') || c == '\u{2028}' || c == '\u{2029}' || c
        == '\u{202F}' || c == '\u{205F}' || c == '\u{3000}'
}


// ---------------------------------------------------------------------------
// Scanning the text

/// End of the run of whitespace that starts at `i`.
pub open spec fn space_end(s: Seq<char>, i: int) -> int
    decreases s.len() - i,
{
    if 0 <= i < s.len() && is_space(s[i]) {
        space_end(s, i + 1)
    } else {
        i
    }
}

/// End of the run of digits that starts at `i`.
pub open spec fn digit_end(s: Seq<char>, i: int) -> int
    decreases s.len() - i,
{
    if 0 <= i < s.len() && is_digit(s[i]) {
        digit_end(s, i + 1)
    } else {
        i
    }
}

/// End of the run of letters that starts at `i`.
pub open spec fn letter_end(s: Seq<char>, i: int) -> int
    decreases s.len() - i,
{
    if 0 <= i < s.len() && is_letter(s[i]) {
        letter_end(s, i + 1)
    } else {
        i
    }
}

/// Number of newline characters in `s[from..to]`.
pub open spec fn newlines(s: Seq<char>, from: int, to: int) -> nat
    decreases to - from,
{
    if to <= from {
        0
    } else {
        newlines(s, from, to - 1) + if s[to - 1] == '\n' {
            1nat
        } else {
            0nat
        }
    }
}

/// The line of position `i`: one more than the newlines before it.
pub open spec fn line_at(s: Seq<char>, i: int) -> nat {
    1 + newlines(s, 0, i)
}

pub open spec fn digit_value(c: char) -> int {
    c as int - '0' as int
}

/// The number that the digits `s[from..to]` write in decimal.
pub open spec fn decimal(s: Seq<char>, from: int, to: int) -> int
    decreases to - from,
{
    if to <= from {
        0
    } else {
        10 * decimal(s, from, to - 1) + digit_value(s[to - 1])
    }
}

pub open spec fn keyword() -> Seq<char> {
    seq!['p', 'r', 'i', 'n', 't']
}

/// What the lexeme at a position stands for: a token, or the reason it is none.
pub enum Lexed {
    Token(TokenType),
    UnexpectedCharacter(char),
    UnrecognizedKeyword(Seq<char>),
    NumericOverflow(Seq<char>),
}

/// End of the lexeme that starts at `p` (the first character that is not whitespace).
pub open spec fn lexeme_end(s: Seq<char>, p: int) -> int {
    if p >= s.len() {
        p
    } else if is_digit(s[p]) {
        digit_end(s, p)
    } else if is_letter(s[p]) {
        letter_end(s, p)
    } else {
        p + 1
    }
}

/// The lexeme that starts at `p`.
pub open spec fn lexeme(s: Seq<char>, p: int) -> Lexed {
    if p >= s.len() {
        Lexed::Token(TokenType::Eof)
    } else if s[p] == '(' {
        Lexed::Token(TokenType::BeginParethesis)
    } else if s[p] == ')' {
        Lexed::Token(TokenType::CloseParenthesis)
    } else if s[p] == '+' {
        Lexed::Token(TokenType::Sum)
    } else if s[p] == '*' {
        Lexed::Token(TokenType::Asterisk)
    } else if is_digit(s[p]) {
        let v = decimal(s, p, digit_end(s, p));
        if v <= i64::MAX {
            Lexed::Token(TokenType::Integer(v as i64))
        } else {
            Lexed::NumericOverflow(s.subrange(p, digit_end(s, p)))
        }
    } else if is_letter(s[p]) {
        let w = s.subrange(p, letter_end(s, p));
        if w == keyword() {
            Lexed::Token(TokenType::Print)
        } else {
            Lexed::UnrecognizedKeyword(w)
        }
    } else {
        Lexed::UnexpectedCharacter(s[p])
    }
}

/// One step of the lexer from position `pos`: what it finds, on which line, and
/// where it stops.
pub struct Scan {
    pub lexed: Lexed,
    pub line: nat,
    pub end: int,
}

pub open spec fn scan(s: Seq<char>, pos: int) -> Scan {
    let p = space_end(s, pos);
    Scan { lexed: lexeme(s, p), line: line_at(s, p), end: lexeme_end(s, p) }
}

/// A lexical error, with the offending lexeme and its line.
#[derive(Debug, PartialEq, Eq)]
pub enum LexError {
    UnexpectedCharacter { ch: char, line: usize },
    UnrecognizedKeyword { word: String, line: usize },
    NumericOverflow { digits: String, line: usize },
}

/// What a result of the lexer says, with its line.
pub open spec fn lex_outcome(r: Result<Token, LexError>) -> (Lexed, nat) {
    match r {
        Ok(t) => (Lexed::Token(t.kind), t.line as nat),
        Err(LexError::UnexpectedCharacter { ch, line }) => (
            Lexed::UnexpectedCharacter(ch),
            line as nat,
        ),
        Err(LexError::UnrecognizedKeyword { word, line }) => (
            Lexed::UnrecognizedKeyword(word@),
            line as nat,
        ),
        Err(LexError::NumericOverflow { digits, line }) => (
            Lexed::NumericOverflow(digits@),
            line as nat,
        ),
    }
}

// ---------------------------------------------------------------------------
// The character buffer

/// The lexer state: the source text, a cursor into it and the current line.
pub struct Buffer<'a> {
    source: &'a str,
    chars: Vec<char>,
    pos: usize,
    line: usize,
}

impl<'a> Buffer<'a> {
    /// The source text.
    pub closed spec fn text(&self) -> Seq<char> {
        self.chars@
    }

    /// Index of the next character to be read.
    pub closed spec fn cursor(&self) -> int {
        self.pos as int
    }

    pub closed spec fn consistent(&self) -> bool {
        &&& self.source@ == self.chars@
        &&& self.line == line_at(self.chars@, self.pos as int)
    }

    pub open spec fn wf(&self) -> bool {
        &&& 0 <= self.cursor() <= self.text().len() < usize::MAX
        &&& self.consistent()
    }

    pub fn create_com_string(s: &'a str) -> (b: Buffer<'a>)
        requires
            s@.len() < usize::MAX,
        ensures
            b.wf(),
            b.text() == s@,
            b.cursor() == 0,
    {
        let n = s.unicode_len();
        let mut chars: Vec<char> = Vec::new();
        let mut i: usize = 0;
        while i < n
            invariant
                n == s@.len(),
                i <= n,
                chars@ == s@.subrange(0, i as int),
            decreases n - i,
        {
            chars.push(s.get_char(i));
            i = i + 1;
        }
        assert(chars@ == s@);
        Buffer { source: s, chars, pos: 0, line: 1 }
    }

    /// Like [`Buffer::create_com_string`], for any text: `None` when the text has
    /// too many characters for the line counter.
    pub fn try_create(s: &'a str) -> (r: Option<Buffer<'a>>)
        ensures
            r is Some <==> s@.len() < usize::MAX,
            r matches Some(b) ==> b.wf() && b.text() == s@ && b.cursor() == 0,
    {
        if s.unicode_len() < usize::MAX {
            Some(Buffer::create_com_string(s))
        } else {
            None
        }
    }

    /// The line of the cursor.
    pub fn line(&self) -> (r: usize)
        requires
            self.wf(),
        ensures
            r == line_at(self.text(), self.cursor()),
    {
        self.line
    }

    pub fn is_end(&self) -> (r: bool)
        requires
            self.wf(),
        ensures
            r == (self.cursor() == self.text().len()),
    {
        self.pos == self.chars.len()
    }

    pub fn peek_char(&self) -> (r: Option<&char>)
        requires
            self.wf(),
        ensures
            self.cursor() < self.text().len() ==> r == Some(&self.text()[self.cursor()]),
            self.cursor() == self.text().len() ==> r is None,
    {
        if self.pos < self.chars.len() {
            Some(&self.chars[self.pos])
        } else {
            None
        }
    }

    /// Consumes one character; a newline moves to the next line.
    pub fn next_char(&mut self) -> (r: Option<char>)
        requires
            old(self).wf(),
        ensures
            final(self).wf(),
            final(self).text() == old(self).text(),
            old(self).cursor() < old(self).text().len() ==> r == Some(
                old(self).text()[old(self).cursor()],
            ) && final(self).cursor() == old(self).cursor() + 1,
            old(self).cursor() == old(self).text().len() ==> r is None && final(self).cursor()
                == old(self).cursor(),
    {
        if self.pos < self.chars.len() {
            let c = self.chars[self.pos];
            proof {
                lemma_newlines_bound(self.chars@, 0, self.pos as int);
            }
            if c == '\n' {
                self.line = self.line + 1;
            }
            self.pos = self.pos + 1;
            Some(c)
        } else {
            None
        }
    }

    /// Skips whitespace.
    pub fn empty_space(&mut self)
        requires
            old(self).wf(),
        ensures
            final(self).wf(),
            final(self).text() == old(self).text(),
            final(self).cursor() == space_end(old(self).text(), old(self).cursor()),
    {
        loop
            invariant
                self.wf(),
                self.text() == old(self).text(),
                space_end(self.text(), self.cursor()) == space_end(
                    self.text(),
                    old(self).cursor(),
                ),
            ensures
                self.wf(),
                self.text() == old(self).text(),
                self.cursor() == space_end(old(self).text(), old(self).cursor()),
            decreases self.text().len() - self.cursor(),
        {
            match self.peek_char() {
                Some(c) => {
                    if is_space_char(*c) {
                        self.next_char();
                    } else {
                        break ;
                    }
                },
                None => {
                    break ;
                },
            }
        }
    }
}

/// Reads the next token, skipping whitespace before it.
pub fn next_token(buffer: &mut Buffer) -> (r: Result<Token, LexError>)
    requires
        old(buffer).wf(),
    ensures
        final(buffer).wf(),
        final(buffer).text() == old(buffer).text(),
        final(buffer).cursor() == scan(old(buffer).text(), old(buffer).cursor()).end,
        lex_outcome(r) == (
            scan(old(buffer).text(), old(buffer).cursor()).lexed,
            scan(old(buffer).text(), old(buffer).cursor()).line,
        ),
{
    if buffer.is_end() {
        return Ok(Token::eof(buffer.line));
    }
    buffer.empty_space();
    let line = buffer.line;
    match buffer.next_char() {
        Some(c) => {
            if c == '(' {
                Ok(Token::symbol(TokenType::BeginParethesis, line))
            } else if c == ')' {
                Ok(Token::symbol(TokenType::CloseParenthesis, line))
            } else if c == '+' {
                Ok(Token::symbol(TokenType::Sum, line))
            } else if c == '*' {
                Ok(Token::symbol(TokenType::Asterisk, line))
            } else if is_digit_char(c) {
                number_token(buffer, c)
            } else if is_letter_char(c) {
                word_token(buffer, c)
            } else {
                Err(LexError::UnexpectedCharacter { ch: c, line })
            }
        },
        None => Ok(Token::eof(line)),
    }
}

/// Reads the rest of an integer literal whose first digit `c` was just consumed.
pub fn number_token(buffer: &mut Buffer, c: char) -> (r: Result<Token, LexError>)
    requires
        old(buffer).wf(),
        0 < old(buffer).cursor(),
        old(buffer).text()[old(buffer).cursor() - 1] == c,
        is_digit(c),
    ensures
        final(buffer).wf(),
        final(buffer).text() == old(buffer).text(),
        final(buffer).cursor() == lexeme_end(old(buffer).text(), old(buffer).cursor() - 1),
        lex_outcome(r) == (
            lexeme(old(buffer).text(), old(buffer).cursor() - 1),
            line_at(old(buffer).text(), old(buffer).cursor() - 1),
        ),
{
    let ghost s = buffer.text();
    let start = buffer.pos - 1;
    let mut value: i64 = (c as u32 - '0' as u32) as i64;
    let mut overflow = false;
    assert(decimal(s, start as int, start + 1) == digit_value(c)) by {
        assert(decimal(s, start as int, start as int) == 0);
    }
    loop
        invariant
            buffer.wf(),
            buffer.text() == s,
            start < buffer.pos,
            s[start as int] == c,
            digit_end(s, start as int) == digit_end(s, buffer.pos as int),
            buffer.line == line_at(s, start as int),
            !overflow ==> value == decimal(s, start as int, buffer.pos as int) && value >= 0,
            overflow ==> decimal(s, start as int, buffer.pos as int) > i64::MAX,
        ensures
            buffer.wf(),
            buffer.text() == s,
            buffer.pos == digit_end(s, start as int),
            buffer.line == line_at(s, start as int),
            !overflow ==> value == decimal(s, start as int, buffer.pos as int),
            overflow ==> decimal(s, start as int, buffer.pos as int) > i64::MAX,
        decreases s.len() - buffer.pos,
    {
        let next = match buffer.peek_char() {
            Some(d) => *d,
            None => {
                break ;
            },
        };
        if !is_digit_char(next) {
            break ;
        }
        let ghost before = decimal(s, start as int, buffer.pos as int);
        let d = (next as u32 - '0' as u32) as i64;
        if overflow {
            assert(10 * before + digit_value(next) > i64::MAX) by (nonlinear_arith)
                requires
                    before > i64::MAX,
                    0 <= digit_value(next) <= 9,
            ;
        } else {
            match value.checked_mul(10) {
                Some(v10) => match v10.checked_add(d) {
                    Some(v) => {
                        value = v;
                    },
                    None => {
                        overflow = true;
                    },
                },
                None => {
                    assert(10 * before + digit_value(next) > i64::MAX) by (nonlinear_arith)
                        requires
                            before * 10 > i64::MAX,
                            0 <= digit_value(next) <= 9,
                    ;
                    overflow = true;
                },
            }
        }
        buffer.next_char();
        assert(decimal(s, start as int, buffer.pos as int) == 10 * before + digit_value(next));
    }
    let end = buffer.pos;
    if overflow {
        let digits = buffer.source.substring_char(start, end).to_owned();
        Err(LexError::NumericOverflow { digits, line: buffer.line })
    } else {
        Ok(Token { kind: TokenType::Integer(value), line: buffer.line })
    }
}

/// Reads the rest of a word whose first letter `c` was just consumed; only the
/// keyword `print` is a token.
pub fn word_token(buffer: &mut Buffer, c: char) -> (r: Result<Token, LexError>)
    requires
        old(buffer).wf(),
        0 < old(buffer).cursor(),
        old(buffer).text()[old(buffer).cursor() - 1] == c,
        is_letter(c),
    ensures
        final(buffer).wf(),
        final(buffer).text() == old(buffer).text(),
        final(buffer).cursor() == lexeme_end(old(buffer).text(), old(buffer).cursor() - 1),
        lex_outcome(r) == (
            lexeme(old(buffer).text(), old(buffer).cursor() - 1),
            line_at(old(buffer).text(), old(buffer).cursor() - 1),
        ),
{
    let ghost s = buffer.text();
    let start = buffer.pos - 1;
    loop
        invariant
            buffer.wf(),
            buffer.text() == s,
            start < buffer.pos,
            s[start as int] == c,
            letter_end(s, start as int) == letter_end(s, buffer.pos as int),
            buffer.line == line_at(s, start as int),
        ensures
            buffer.wf(),
            buffer.text() == s,
            buffer.pos == letter_end(s, start as int),
            buffer.line == line_at(s, start as int),
        decreases s.len() - buffer.pos,
    {
        let next = match buffer.peek_char() {
            Some(d) => *d,
            None => {
                break ;
            },
        };
        if !is_letter_char(next) {
            break ;
        }
        buffer.next_char();
    }
    let end = buffer.pos;
    if is_keyword(&buffer.chars, start, end) {
        Ok(Token { kind: TokenType::Print, line: buffer.line })
    } else {
        let word = buffer.source.substring_char(start, end).to_owned();
        Err(LexError::UnrecognizedKeyword { word, line: buffer.line })
    }
}

/// Whether `chars[from..to]` spells the keyword `print`.
fn is_keyword(chars: &Vec<char>, from: usize, to: usize) -> (r: bool)
    requires
        from <= to <= chars.len(),
    ensures
        r == (chars@.subrange(from as int, to as int) == keyword()),
{
    let w = Ghost(chars@.subrange(from as int, to as int));
    if to - from != 5 {
        assert(w@.len() != keyword().len());
        return false;
    }
    let r = chars[from] == 'p' && chars[from + 1] == 'r' && chars[from + 2] == 'i' && chars[from
        + 3] == 'n' && chars[from + 4] == 't';
    if r {
        assert(w@ =~= keyword());
    } else {
        assert(w@ != keyword()) by {
            if w@ == keyword() {
                assert(w@[0] == keyword()[0]);
                assert(w@[1] == keyword()[1]);
                assert(w@[2] == keyword()[2]);
                assert(w@[3] == keyword()[3]);
                assert(w@[4] == keyword()[4]);
            }
        }
    }
    r
}

pub proof fn lemma_space_end_bounds(s: Seq<char>, i: int)
    requires
        0 <= i <= s.len(),
    ensures
        i <= space_end(s, i) <= s.len(),
        space_end(s, i) < s.len() ==> !is_space(s[space_end(s, i)]),
    decreases s.len() - i,
{
    if i < s.len() && is_space(s[i]) {
        lemma_space_end_bounds(s, i + 1);
    }
}

pub proof fn lemma_digit_end_bounds(s: Seq<char>, i: int)
    requires
        0 <= i <= s.len(),
    ensures
        i <= digit_end(s, i) <= s.len(),
        digit_end(s, i) < s.len() ==> !is_digit(s[digit_end(s, i)]),
    decreases s.len() - i,
{
    if i < s.len() && is_digit(s[i]) {
        lemma_digit_end_bounds(s, i + 1);
    }
}

pub proof fn lemma_letter_end_bounds(s: Seq<char>, i: int)
    requires
        0 <= i <= s.len(),
    ensures
        i <= letter_end(s, i) <= s.len(),
        letter_end(s, i) < s.len() ==> !is_letter(s[letter_end(s, i)]),
    decreases s.len() - i,
{
    if i < s.len() && is_letter(s[i]) {
        lemma_letter_end_bounds(s, i + 1);
    }
}

/// A step of the lexer stays within the text, and moves forward unless it
/// reaches the end of input.
pub proof fn lemma_scan_bounds(s: Seq<char>, pos: int)
    requires
        0 <= pos <= s.len(),
    ensures
        pos <= scan(s, pos).end <= s.len(),
        scan(s, pos).lexed == Lexed::Token(TokenType::Eof) <==> space_end(s, pos) == s.len(),
        scan(s, pos).lexed == Lexed::Token(TokenType::Eof) ==> scan(s, pos).end == s.len(),
        scan(s, pos).lexed != Lexed::Token(TokenType::Eof) ==> pos <= space_end(s, pos) < scan(
            s,
            pos,
        ).end,
{
    let p = space_end(s, pos);
    lemma_space_end_bounds(s, pos);
    if p < s.len() {
        lemma_digit_end_bounds(s, p + 1);
        lemma_letter_end_bounds(s, p + 1);
    }
}

pub proof fn lemma_newlines_bound(s: Seq<char>, from: int, to: int)
    requires
        from <= to,
    ensures
        newlines(s, from, to) <= to - from,
    decreases to - from,
{
    if from < to {
        lemma_newlines_bound(s, from, to - 1);
    }
}

} // verus!
