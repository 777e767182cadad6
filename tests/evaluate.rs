use calculator::eval::{eval_postfix, evaluate, InvalidExpression};
use calculator::lexer::{parse_decimal, tokenize, NumericParseError, Token};
use calculator::number::{apply, Number, Op};
use calculator::postfix::to_postfix;

fn value(s: &str) -> f64 {
    let n = evaluate(s).unwrap();
    n.num as f64 / n.den as f64
}

fn calc_val(s: &str) -> f64 {
    value(s)
}

fn num(n: i128, d: i128) -> Number {
    Number { num: n, den: d }
}

#[test]
fn test_calc_val() {
    // test addition
    assert_eq!(calc_val("1+2"), 3.0);
    // test subtraction
    assert_eq!(calc_val("1-2"), -1.0);
    // test division
    assert_eq!(calc_val("1/2"), 0.5);
    // test multiplication
    assert_eq!(calc_val("1*2"), 2.0);
    // test multiple operations
    assert_eq!(calc_val("1+2*3"), 9.0);
}

#[test]
fn single_operations() {
    assert_eq!(value("5+3"), 8.0);
    assert_eq!(value("10-4"), 6.0);
    assert_eq!(value("2*6"), 12.0);
    assert_eq!(value("8/2"), 4.0);
}

#[test]
fn operator_rule_on_mixed_terms() {
    assert_eq!(value("3+4*2"), 14.0);
}

#[test]
fn parenthesised_groups() {
    assert_eq!(value("(1+2)*(3+4)"), 21.0);
    assert_eq!(value("3+(4*2)"), 11.0);
    assert_eq!(value("(3+4)*2"), 14.0);
}

#[test]
fn division_by_zero_is_invalid() {
    assert_eq!(evaluate("12/0"), Err(InvalidExpression));
    assert_eq!(evaluate("0/0"), Err(InvalidExpression));
}

#[test]
fn letters_are_invalid() {
    assert_eq!(evaluate("invalidexpression"), Err(InvalidExpression));
    assert_eq!(evaluate("1+x"), Err(InvalidExpression));
    assert_eq!(evaluate("1 + 2"), Err(InvalidExpression));
}

#[test]
fn repeated_evaluation_agrees() {
    for s in ["3+4*2", "12/0", "", "(1+2", "1.5*4"] {
        assert_eq!(evaluate(s), evaluate(s));
    }
}

#[test]
fn empty_is_invalid() {
    assert_eq!(evaluate(""), Err(InvalidExpression));
}

#[test]
fn unbalanced_parentheses() {
    // an unmatched left parenthesis reaches the evaluator and fails it
    assert_eq!(evaluate("(1+2"), Err(InvalidExpression));
    // an unmatched right parenthesis empties the stack and is otherwise ignored
    assert_eq!(value("1+2)"), 3.0);
    assert_eq!(evaluate("()"), Err(InvalidExpression));
}

#[test]
fn additive_chains() {
    assert_eq!(value("1-2-3"), -4.0);
    assert_eq!(value("1+2+3"), 6.0);
    // a stacked minus stays below an incoming plus: 1-(2+3)
    assert_eq!(value("1-2+3"), -4.0);
    assert_eq!(value("1+2-3"), 0.0);
}

#[test]
fn decimal_literals() {
    assert_eq!(evaluate("1.5"), Ok(num(15, 10)));
    assert_eq!(value(".5+5."), 5.5);
    assert_eq!(value("0.1*3"), 0.3);
    assert_eq!(evaluate("1.2.3"), Err(InvalidExpression));
    assert_eq!(evaluate("."), Err(InvalidExpression));
}

#[test]
fn exact_fractions() {
    assert_eq!(evaluate("1/3"), Ok(num(1, 3)));
    assert_eq!(evaluate("1/3*3"), Ok(num(3, 3)));
    // the stacked plus leaves before the incoming division: (1/2+1)/4
    assert_eq!(evaluate("1/2+1/4"), Ok(num(3, 8)));
    assert_eq!(evaluate("1/2-1/4"), Ok(num(-1, 8)));
}

#[test]
fn structural_failures() {
    assert_eq!(evaluate("1+"), Err(InvalidExpression));
    assert_eq!(evaluate("*2"), Err(InvalidExpression));
    assert_eq!(evaluate("12"), Ok(num(12, 1)));
}

#[test]
fn oversized_values_are_invalid() {
    let big = "9".repeat(40);
    assert_eq!(evaluate(&big), Err(InvalidExpression));
    let wide = "170141183460469231731687303715884105727";
    assert_eq!(evaluate(wide), Ok(num(i128::MAX, 1)));
    assert_eq!(evaluate(&format!("{wide}+1")), Err(InvalidExpression));
    assert_eq!(evaluate(&format!("{wide}*{wide}")), Err(InvalidExpression));
}

#[test]
fn tokenize_classifies_each_character() {
    let ts = tokenize("(12.5+x)").unwrap();
    assert_eq!(
        ts,
        vec![
            Token::LeftParen,
            Token::Operand(num(125, 10)),
            Token::Operator(Op::Add),
            Token::Error('x'),
            Token::RightParen,
        ]
    );
    assert_eq!(tokenize(""), Ok(vec![]));
    assert_eq!(tokenize("1..2"), Err(NumericParseError));
}

#[test]
fn parse_decimal_values() {
    assert_eq!(parse_decimal(&vec!['0', '7']), Ok(num(7, 1)));
    assert_eq!(parse_decimal(&vec!['3', '.', '2', '5']), Ok(num(325, 100)));
    assert_eq!(parse_decimal(&vec!['.']), Err(NumericParseError));
    assert_eq!(parse_decimal(&vec!['.', '.', '1']), Err(NumericParseError));
}

#[test]
fn postfix_order() {
    let one = Token::Operand(num(1, 1));
    let two = Token::Operand(num(2, 1));
    let three = Token::Operand(num(3, 1));
    let add = Token::Operator(Op::Add);
    let mul = Token::Operator(Op::Mul);
    let sub = Token::Operator(Op::Sub);
    // 1+2*3 pops the plus before the times is pushed
    assert_eq!(to_postfix(&vec![one, add, two, mul, three]), vec![one, two, add, three, mul]);
    // 1-2+3 keeps the minus below the plus
    assert_eq!(to_postfix(&vec![one, sub, two, add, three]), vec![one, two, three, add, sub]);
    // 1*(2+3)
    let l = Token::LeftParen;
    let r = Token::RightParen;
    assert_eq!(
        to_postfix(&vec![one, mul, l, two, add, three, r]),
        vec![one, two, three, add, mul]
    );
    // errors pass through; a stray left parenthesis is drained at the end
    let e = Token::Error('?');
    assert_eq!(to_postfix(&vec![l, one, e]), vec![one, e, l]);
}

#[test]
fn eval_postfix_cases() {
    let one = Token::Operand(num(1, 1));
    let two = Token::Operand(num(2, 1));
    let div = Token::Operator(Op::Div);
    assert_eq!(eval_postfix(&vec![one, two, div]), Some(num(1, 2)));
    assert_eq!(eval_postfix(&vec![one, div]), None);
    assert_eq!(eval_postfix(&vec![one, two]), None);
    assert_eq!(eval_postfix(&vec![]), None);
    assert_eq!(eval_postfix(&vec![one, Token::LeftParen]), None);
}

#[test]
fn apply_formulas() {
    assert_eq!(apply(Op::Add, num(1, 2), num(1, 3)), Some(num(5, 6)));
    assert_eq!(apply(Op::Sub, num(1, 2), num(1, 3)), Some(num(1, 6)));
    assert_eq!(apply(Op::Mul, num(2, 3), num(3, 5)), Some(num(6, 15)));
    assert_eq!(apply(Op::Div, num(2, 3), num(3, 5)), Some(num(10, 9)));
    assert_eq!(apply(Op::Div, num(2, 3), num(0, 5)), None);
    assert_eq!(apply(Op::Mul, num(i128::MAX, 1), num(2, 1)), None);
}
