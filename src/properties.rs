use vstd::prelude::*;

use crate::eval::value;
use crate::lexer::{
    decimal, digit_end, is_letter, lemma_digit_end_bounds, lemma_letter_end_bounds, lemma_scan_bounds, lemma_space_end_bounds, digit_value, is_digit, is_space, keyword, letter_end, lexeme, line_at,
    newlines, scan, space_end, Lexed, Scan, TokenType,
};
use crate::parser::{combine, expr_at, lemma_expr_bounds, program_at, Expression, Operator, Parsed};

verus! {

/// The decimal digit for `d < 10`.
pub open spec fn digit_char(d: nat) -> char {
    ('0' as int + d) as char
}

/// The decimal notation of `n`, without leading zeros.
pub open spec fn decimal_text(n: nat) -> Seq<char>
    decreases n,
{
    if n < 10 {
        seq![digit_char(n)]
    } else {
        decimal_text(n / 10).push(digit_char(n % 10))
    }
}

/// `"print "` followed by `rest`.
pub open spec fn print_then(rest: Seq<char>) -> Seq<char> {
    keyword() + seq![' '] + rest
}

/// A token's line is one more than the number of newlines before the token.
pub proof fn lemma_token_line(s: Seq<char>, pos: int)
    requires
        0 <= pos <= s.len(),
    ensures
        scan(s, pos).line == 1 + newlines(s, 0, space_end(s, pos)),
{
}

/// Once the input is exhausted, every further step of the lexer finds the end of
/// input on the same line and leaves the cursor where it is.
pub proof fn lemma_end_of_input_is_stable(s: Seq<char>)
    ensures
        scan(s, s.len() as int) == (Scan {
            lexed: Lexed::Token(TokenType::Eof),
            line: line_at(s, s.len() as int),
            end: s.len() as int,
        }),
{
}

proof fn lemma_decimal_agree(s: Seq<char>, t: Seq<char>, off: int, from: int, to: int)
    requires
        from <= to,
        forall|k: int| from <= k < to ==> t[k + off] == s[k],
    ensures
        decimal(t, from + off, to + off) == decimal(s, from, to),
    decreases to - from,
{
    if from < to {
        lemma_decimal_agree(s, t, off, from, to - 1);
    }
}

proof fn lemma_digit_run_to_end(s: Seq<char>, i: int)
    requires
        0 <= i <= s.len(),
        forall|k: int| i <= k < s.len() ==> is_digit(s[k]),
    ensures
        digit_end(s, i) == s.len(),
    decreases s.len() - i,
{
    if i < s.len() {
        lemma_digit_run_to_end(s, i + 1);
    }
}

proof fn lemma_decimal_text(n: nat)
    ensures
        decimal_text(n).len() >= 1,
        forall|k: int| 0 <= k < decimal_text(n).len() ==> is_digit(#[trigger] decimal_text(n)[k]),
        decimal(decimal_text(n), 0, decimal_text(n).len() as int) == n,
    decreases n,
{
    let d = decimal_text(n);
    if n >= 10 {
        let p = decimal_text(n / 10);
        lemma_decimal_text(n / 10);
        assert(d.len() == p.len() + 1);
        assert forall|k: int| 0 <= k < d.len() implies is_digit(#[trigger] d[k]) by {
            if k < p.len() {
                assert(d[k] == p[k]);
            }
        }
        lemma_decimal_agree(p, d, 0, 0, p.len() as int);
        assert(digit_value(d[p.len() as int]) == n % 10);
        assert(10 * (n / 10) + n % 10 == n) by (nonlinear_arith);
    } else {
        assert(decimal(d, 0, 0) == 0);
    }
}

/// Scanning `"print"` followed by something that is not a letter.
proof fn lemma_scan_print(rest: Seq<char>)
    requires
        rest.len() > 0,
        rest[0] == ' ',
    ensures
        scan(keyword() + rest, 0) == (Scan {
            lexed: Lexed::Token(TokenType::Print),
            line: 1,
            end: 5,
        }),
{
    let t = keyword() + rest;
    assert(t[0] == 'p' && t[1] == 'r' && t[2] == 'i' && t[3] == 'n' && t[4] == 't' && t[5]
        == ' ');
    assert(space_end(t, 0) == 0);
    assert(letter_end(t, 5) == 5);
    assert(letter_end(t, 4) == 5);
    assert(letter_end(t, 3) == 5);
    assert(letter_end(t, 2) == 5);
    assert(letter_end(t, 1) == 5);
    assert(letter_end(t, 0) == 5);
    assert(t.subrange(0, 5) =~= keyword());
    assert(newlines(t, 0, 0) == 0);
}

/// `print` followed by the decimal notation of a number that fits in an `i64`
/// parses to that constant, whose value is the number.
pub proof fn lemma_print_literal(n: nat)
    requires
        n <= i64::MAX,
    ensures
        program_at(print_then(decimal_text(n)), 0) == Parsed::Done(
            Expression::Constant(n as i64),
            print_then(decimal_text(n)).len() as int,
        ),
        value(Expression::Constant(n as i64)) == n,
{
    let d = decimal_text(n);
    let t = print_then(d);
    lemma_decimal_text(n);
    lemma_scan_print(seq![' '] + d);
    assert(t == keyword() + (seq![' '] + d));
    assert(t[5] == ' ');
    assert forall|k: int| 0 <= k < d.len() implies t[k + 6] == d[k] by {}
    assert(is_digit(t[6]));
    assert(space_end(t, 6) == 6);
    assert(space_end(t, 5) == 6);
    lemma_digit_run_to_end(t, 6);
    lemma_decimal_agree(d, t, 6, 0, d.len() as int);
    assert(lexeme(t, 6) == Lexed::Token(TokenType::Integer(n as i64)));
}

/// `t` holds `s[from..to]`, shifted by `off`.
pub open spec fn agree(s: Seq<char>, t: Seq<char>, off: int, from: int, to: int) -> bool {
    forall|k: int|
        from <= k < to ==> 0 <= k + off < t.len() && t[k + off] == #[trigger] s[k]
}

proof fn lemma_space_local(s: Seq<char>, t: Seq<char>, off: int, i: int)
    requires
        0 <= i <= space_end(s, i) < s.len(),
        agree(s, t, off, i, space_end(s, i) + 1),
    ensures
        space_end(t, i + off) == space_end(s, i) + off,
    decreases s.len() - i,
{
    assert(t[i + off] == s[i]);
    if is_space(s[i]) {
        lemma_space_end_bounds(s, i + 1);
        lemma_space_local(s, t, off, i + 1);
    }
}

proof fn lemma_digit_local(s: Seq<char>, t: Seq<char>, off: int, i: int)
    requires
        0 <= i <= s.len(),
        0 <= i + off,
        agree(s, t, off, i, digit_end(s, i)),
        digit_end(s, i) + off <= t.len(),
        digit_end(s, i) + off < t.len() ==> !is_digit(t[digit_end(s, i) + off]),
    ensures
        digit_end(t, i + off) == digit_end(s, i) + off,
    decreases s.len() - i,
{
    if i < s.len() && is_digit(s[i]) {
        lemma_digit_end_bounds(s, i + 1);
        assert(t[i + off] == s[i]);
        lemma_digit_local(s, t, off, i + 1);
    }
}

proof fn lemma_letter_local(s: Seq<char>, t: Seq<char>, off: int, i: int)
    requires
        0 <= i <= s.len(),
        0 <= i + off,
        agree(s, t, off, i, letter_end(s, i)),
        letter_end(s, i) + off <= t.len(),
        letter_end(s, i) + off < t.len() ==> !is_letter(t[letter_end(s, i) + off]),
    ensures
        letter_end(t, i + off) == letter_end(s, i) + off,
    decreases s.len() - i,
{
    if i < s.len() && is_letter(s[i]) {
        lemma_letter_end_bounds(s, i + 1);
        assert(t[i + off] == s[i]);
        lemma_letter_local(s, t, off, i + 1);
    }
}

/// A lexer step that finds one of the expression tokens finds the same token in
/// any text that holds the same characters, up to a character that stops a number.
proof fn lemma_scan_local(s: Seq<char>, t: Seq<char>, off: int, i: int, i2: int)
    requires
        0 <= i <= s.len(),
        0 <= i2 <= t.len(),
        scan(s, i).lexed is Token,
        scan(s, i).lexed != Lexed::Token(TokenType::Eof),
        space_end(t, i2) == space_end(s, i) + off,
        agree(s, t, off, space_end(s, i), scan(s, i).end),
        scan(s, i).end + off <= t.len(),
        scan(s, i).lexed matches Lexed::Token(TokenType::Integer(_)) ==> scan(s, i).end + off
            < t.len() ==> !is_digit(t[scan(s, i).end + off]),
        scan(s, i).lexed == Lexed::Token(TokenType::Print) ==> scan(s, i).end + off < t.len()
            ==> !is_letter(t[scan(s, i).end + off]),
    ensures
        scan(t, i2).lexed == scan(s, i).lexed,
        scan(t, i2).end == scan(s, i).end + off,
{
    let p = space_end(s, i);
    lemma_scan_bounds(s, i);
    lemma_space_end_bounds(s, i);
    assert(t[p + off] == s[p]);
    if is_digit(s[p]) {
        lemma_digit_end_bounds(s, p);
        lemma_digit_local(s, t, off, p);
        lemma_decimal_agree(s, t, off, p, digit_end(s, p));
    }
    if is_letter(s[p]) {
        let e = letter_end(s, p);
        lemma_letter_end_bounds(s, p);
        lemma_letter_local(s, t, off, p);
        assert(t.subrange(p + off, e + off) =~= s.subrange(p, e));
    }
}

/// An expression that parses in `s` parses to the same tree in any text `t` that
/// holds the same characters, shifted by `off`, up to a character that stops a number.
proof fn lemma_expr_local(s: Seq<char>, t: Seq<char>, off: int, i: int, i2: int)
    requires
        0 <= i <= s.len(),
        0 <= i2 <= t.len(),
        expr_at(s, i) is Done,
        space_end(t, i2) == space_end(s, i) + off,
        agree(s, t, off, space_end(s, i), expr_at(s, i)->Done_1),
        expr_at(s, i)->Done_1 + off <= t.len(),
        expr_at(s, i)->Done_1 + off < t.len() ==> !is_digit(t[expr_at(s, i)->Done_1 + off]),
    ensures
        expr_at(t, i2) == Parsed::Done(expr_at(s, i)->Done_0, expr_at(s, i)->Done_1 + off),
    decreases s.len() - i,
{
    let r = scan(s, i);
    let j = expr_at(s, i)->Done_1;
    lemma_scan_bounds(s, i);
    lemma_scan_bounds(t, i2);
    lemma_space_end_bounds(s, i);
    lemma_space_end_bounds(t, i2);
    lemma_expr_bounds(s, i);
    if r.lexed == Lexed::Token(TokenType::BeginParethesis) {
        let i1 = r.end;
        let e1 = expr_at(s, i1)->Done_1;
        lemma_expr_bounds(s, i1);
        lemma_scan_bounds(s, i1);
        let o = scan(s, e1);
        lemma_scan_bounds(s, e1);
        let i3 = o.end;
        lemma_expr_bounds(s, i3);
        lemma_scan_bounds(s, i3);
        let e2 = expr_at(s, i3)->Done_1;
        lemma_scan_bounds(s, e2);
        lemma_scan_local(s, t, off, i, i2);
        lemma_space_local(s, t, off, i1);
        if is_digit(s[e1]) {
            assert(space_end(s, e1) == e1);
        }
        lemma_expr_local(s, t, off, i1, i1 + off);
        lemma_space_end_bounds(s, e1);
        lemma_space_local(s, t, off, e1);
        lemma_scan_local(s, t, off, e1, e1 + off);
        lemma_space_local(s, t, off, i3);
        if is_digit(s[e2]) {
            assert(space_end(s, e2) == e2);
        }
        lemma_expr_local(s, t, off, i3, i3 + off);
        lemma_space_end_bounds(s, e2);
        lemma_space_local(s, t, off, e2);
        lemma_scan_local(s, t, off, e2, e2 + off);
    } else {
        lemma_scan_local(s, t, off, i, i2);
    }
}

pub open spec fn operator_char(op: Operator) -> char {
    match op {
        Operator::Sum => '+',
        Operator::Multiply => '*',
    }
}

/// `"(" + a + " + " + b + ")"`, or with `*`.
pub open spec fn binary_text(a: Seq<char>, op: Operator, b: Seq<char>) -> Seq<char> {
    seq!['('] + a + seq![' ', operator_char(op), ' '] + b + seq![')']
}

/// The tokens and operands of `print (a op b)`, one after the other.
#[verifier::rlimit(50)]
proof fn lemma_binary_parts(a: Seq<char>, b: Seq<char>, op: Operator, ea: Expression, eb: Expression)
    requires
        expr_at(a, 0) == Parsed::Done(ea, a.len() as int),
        expr_at(b, 0) == Parsed::Done(eb, b.len() as int),
    ensures
        ({
            let t = print_then(binary_text(a, op, b));
            let la = a.len() as int;
            let lb = b.len() as int;
            &&& t.len() == la + lb + 11
            &&& scan(t, 5).lexed == Lexed::Token(TokenType::BeginParethesis)
            &&& scan(t, 5).end == 7
            &&& expr_at(t, 7) == Parsed::Done(ea, la + 7)
            &&& scan(t, la + 7).lexed == Lexed::Token(
                match op {
                    Operator::Sum => TokenType::Sum,
                    Operator::Multiply => TokenType::Asterisk,
                },
            )
            &&& scan(t, la + 7).end == la + 9
            &&& expr_at(t, la + 9) == Parsed::Done(eb, la + lb + 10)
            &&& scan(t, la + lb + 10).lexed == Lexed::Token(TokenType::CloseParenthesis)
            &&& scan(t, la + lb + 10).end == la + lb + 11
        }),
{
    let x = binary_text(a, op, b);
    let t = print_then(x);
    let la = a.len() as int;
    let lb = b.len() as int;
    assert(t.len() == la + lb + 11);
    assert(t[5] == ' ' && t[6] == '(');
    assert(t[la + 7] == ' ' && t[la + 8] == operator_char(op) && t[la + 9] == ' ');
    assert(t[la + lb + 10] == ')');
    assert forall|k: int| 0 <= k < la implies t[k + 7] == a[k] by {}
    assert forall|k: int| 0 <= k < lb implies t[k + la + 10] == b[k] by {}
    assert(agree(a, t, 7, 0, la));
    assert(agree(b, t, la + 10, 0, lb));
    assert(space_end(t, 6) == 6);
    assert(space_end(t, 5) == 6);
    lemma_expr_bounds(a, 0);
    lemma_space_local(a, t, 7, 0);
    lemma_expr_local(a, t, 7, 0, 7);
    assert(space_end(t, la + 8) == la + 8);
    assert(space_end(t, la + 7) == la + 8);
    lemma_expr_bounds(b, 0);
    lemma_space_local(b, t, la + 10, 0);
    assert(space_end(t, la + 9) == space_end(t, la + 10));
    lemma_expr_local(b, t, la + 10, 0, la + 9);
    assert(space_end(t, la + lb + 10) == la + lb + 10);
}

/// If `a` and `b` are whole expressions, `print (a + b)` parses to their sum and
/// `print (a * b)` to their product, whose values are the sum and the product of
/// their values.
pub proof fn lemma_print_binary(
    a: Seq<char>,
    b: Seq<char>,
    op: Operator,
    ea: Expression,
    eb: Expression,
)
    requires
        expr_at(a, 0) == Parsed::Done(ea, a.len() as int),
        expr_at(b, 0) == Parsed::Done(eb, b.len() as int),
    ensures
        program_at(print_then(binary_text(a, op, b)), 0) == Parsed::Done(
            combine(op, ea, eb),
            print_then(binary_text(a, op, b)).len() as int,
        ),
        value(combine(op, ea, eb)) == match op {
            Operator::Sum => value(ea) + value(eb),
            Operator::Multiply => value(ea) * value(eb),
        },
{
    let x = binary_text(a, op, b);
    let t = print_then(x);
    lemma_scan_print(seq![' '] + x);
    assert(t == keyword() + (seq![' '] + x));
    lemma_binary_parts(a, b, op, ea, eb);
}

/// `s` with the character `c` inserted at position `q`.
pub open spec fn insert_at(s: Seq<char>, q: int, c: char) -> Seq<char> {
    s.subrange(0, q) + seq![c] + s.subrange(q, s.len() as int)
}

/// Position `q` of `s` does not split a number or a word.
pub open spec fn between_tokens(s: Seq<char>, q: int) -> bool {
    &&& 0 <= q <= s.len()
    &&& 0 < q < s.len() ==> !(is_digit(s[q - 1]) && is_digit(s[q]))
    &&& 0 < q < s.len() ==> !(is_letter(s[q - 1]) && is_letter(s[q]))
}

/// Where position `k` of `s` ends up once a character is inserted at `q`, seen
/// as the end of a lexeme.
pub open spec fn moved(q: int, k: int) -> int {
    if k <= q {
        k
    } else {
        k + 1
    }
}

proof fn lemma_space_insert(s: Seq<char>, q: int, c: char, i: int)
    requires
        0 <= q <= s.len(),
        is_space(c),
        0 <= i <= s.len(),
    ensures
        space_end(insert_at(s, q, c), moved(q, i)) == if space_end(s, i) < q {
            space_end(s, i)
        } else {
            space_end(s, i) + 1
        },
    decreases s.len() - i,
{
    let t = insert_at(s, q, c);
    assert(t.len() == s.len() + 1);
    assert(forall|k: int| 0 <= k < q ==> t[k] == s[k]);
    assert(t[q] == c);
    assert(forall|k: int| q <= k < s.len() ==> t[k + 1] == s[k]);
    lemma_space_end_bounds(s, i);
    if i < s.len() && is_space(s[i]) {
        lemma_space_insert(s, q, c, i + 1);
        if i == q {
            assert(space_end(t, q) == space_end(t, q + 1));
        }
    } else if i == q {
        assert(space_end(t, q) == space_end(t, q + 1));
    }
}

/// Inserting whitespace between tokens moves each expression token but does not
/// change it.
proof fn lemma_scan_insert(s: Seq<char>, q: int, c: char, i: int)
    requires
        between_tokens(s, q),
        is_space(c),
        0 <= i <= s.len(),
        scan(s, i).lexed is Token,
        scan(s, i).lexed != Lexed::Token(TokenType::Eof),
    ensures
        scan(insert_at(s, q, c), moved(q, i)).lexed == scan(s, i).lexed,
        scan(insert_at(s, q, c), moved(q, i)).end == moved(q, scan(s, i).end),
{
    let t = insert_at(s, q, c);
    let p = space_end(s, i);
    let e = scan(s, i).end;
    assert(t.len() == s.len() + 1);
    assert(forall|k: int| 0 <= k < q ==> t[k] == s[k]);
    assert(t[q] == c);
    assert(forall|k: int| q <= k < s.len() ==> t[k + 1] == s[k]);
    lemma_scan_bounds(s, i);
    lemma_space_insert(s, q, c, i);
    if is_digit(s[p]) {
        lemma_digit_end_bounds(s, p);
        lemma_digit_end_bounds(s, p + 1);
    }
    if is_letter(s[p]) {
        lemma_letter_end_bounds(s, p);
        lemma_letter_end_bounds(s, p + 1);
    }
    if p < q {
        if e > q {
            // the lexeme would span q: a number or a word, which q does not split
            assert(e == digit_end(s, p) || e == letter_end(s, p));
            lemma_run_covers(s, p, q);
        }
        assert(agree(s, t, 0, p, e));
        lemma_scan_local(s, t, 0, i, moved(q, i));
    } else {
        assert(agree(s, t, 1, p, e));
        lemma_scan_local(s, t, 1, i, moved(q, i));
    }
}

/// A run of digits or letters from `p` that goes past `q` holds `s[q - 1]` and `s[q]`.
proof fn lemma_run_covers(s: Seq<char>, p: int, q: int)
    requires
        0 <= p < q < s.len(),
    ensures
        digit_end(s, p) > q ==> is_digit(s[q - 1]) && is_digit(s[q]),
        letter_end(s, p) > q ==> is_letter(s[q - 1]) && is_letter(s[q]),
    decreases q - p,
{
    if p + 1 < q {
        lemma_run_covers(s, p + 1, q);
    } else {
        if is_digit(s[p]) {
            lemma_digit_end_bounds(s, p + 1);
        }
        if is_letter(s[p]) {
            lemma_letter_end_bounds(s, p + 1);
        }
    }
}

proof fn lemma_expr_insert(s: Seq<char>, q: int, c: char, i: int)
    requires
        between_tokens(s, q),
        is_space(c),
        0 <= i <= s.len(),
        expr_at(s, i) is Done,
    ensures
        expr_at(insert_at(s, q, c), moved(q, i)) == Parsed::Done(
            expr_at(s, i)->Done_0,
            moved(q, expr_at(s, i)->Done_1),
        ),
    decreases s.len() - i,
{
    let t = insert_at(s, q, c);
    let r = scan(s, i);
    assert(t.len() == s.len() + 1);
    lemma_scan_bounds(s, i);
    lemma_expr_bounds(s, i);
    lemma_scan_insert(s, q, c, i);
    if r.lexed == Lexed::Token(TokenType::BeginParethesis) {
        let i1 = r.end;
        let e1 = expr_at(s, i1)->Done_1;
        lemma_expr_bounds(s, i1);
        lemma_expr_insert(s, q, c, i1);
        let o = scan(s, e1);
        lemma_scan_bounds(s, e1);
        lemma_scan_insert(s, q, c, e1);
        let i3 = o.end;
        lemma_expr_bounds(s, i3);
        lemma_expr_insert(s, q, c, i3);
        let e2 = expr_at(s, i3)->Done_1;
        lemma_scan_bounds(s, e2);
        lemma_scan_insert(s, q, c, e2);
    }
}

/// Inserting a whitespace character where it splits no number or word leaves the
/// tree that a program parses to unchanged; applied repeatedly, so does inserting
/// any amount of whitespace between tokens.
pub proof fn lemma_whitespace_insensitive(s: Seq<char>, q: int, c: char)
    requires
        between_tokens(s, q),
        is_space(c),
        program_at(s, 0) is Done,
    ensures
        program_at(insert_at(s, q, c), 0) is Done,
        program_at(insert_at(s, q, c), 0)->Done_0 == program_at(s, 0)->Done_0,
{
    let r = scan(s, 0);
    lemma_scan_bounds(s, 0);
    lemma_scan_insert(s, q, c, 0);
    lemma_scan_bounds(s, 0);
    lemma_expr_insert(s, q, c, r.end);
}

} // verus!
