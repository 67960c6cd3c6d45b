use minicalc::eval::eval;
use minicalc::lexer::Buffer;
use minicalc::parser::{parse, Expression};

fn run(src: &str) -> Option<i64> {
    let mut buffer = Buffer::create_com_string(src);
    eval(&parse(&mut buffer).unwrap())
}

#[test]
fn main_constant() {
    let mut buffer = Buffer::create_com_string("print 42");
    let e = parse(&mut buffer).unwrap();
    assert_eq!(eval(&e), Some(42));
}

#[test]
fn main_calc() {
    let mut buffer = Buffer::create_com_string("print (4 + (39 * 6))");
    let e = parse(&mut buffer).unwrap();
    assert_eq!(eval(&e), Some(238));
}

#[test]
fn literal_evaluates_to_itself() {
    assert_eq!(run("print 0"), Some(0));
    assert_eq!(run("print 9223372036854775807"), Some(i64::MAX));
}

#[test]
fn nested_sum_and_product() {
    assert_eq!(run("print ((2 * 3) + (4 * (5 + 6)))"), Some(50));
    assert_eq!(run("print (4 * (39 + 3))"), Some(168));
}

#[test]
fn whitespace_does_not_change_value() {
    assert_eq!(run("print (4 * (39 + 3))"), run("\n print ( 4*\n\n(39+ 3) )"));
}

#[test]
fn overflow_gives_none() {
    assert_eq!(run("print (9223372036854775807 + 1)"), None);
    assert_eq!(run("print (4611686018427387904 * 2)"), None);
    assert_eq!(run("print ((9223372036854775807 * 2) * 0)"), None);
}

#[test]
fn negative_constants_evaluate() {
    let e = Expression::Multiply(
        Box::new(Expression::Constant(-3)),
        Box::new(Expression::Sum(Box::new(Expression::Constant(i64::MIN + 3)), Box::new(Expression::Constant(-3)))),
    );
    assert_eq!(eval(&e), None);
    let f = Expression::Sum(Box::new(Expression::Constant(-3)), Box::new(Expression::Constant(i64::MIN + 3)));
    assert_eq!(eval(&f), Some(i64::MIN));
}
