use infix_calc::eval::{eval_rpn, EvalError, Expr};
use infix_calc::lexer::{split, tokenize, LexError};
use infix_calc::pipeline::{parse_expression, CalcError};
use infix_calc::postfix::to_postfix;
use infix_calc::token::{is_right_associative, precedence, Token};

fn value(e: &Expr) -> f64 {
    match e {
        Expr::Number(s) => s.parse::<f64>().unwrap(),
        Expr::Binary(op, l, r) => {
            let a = value(l);
            let b = value(r);
            match op {
                '+' => a + b,
                '-' => a - b,
                '*' => a * b,
                '/' => a / b,
                '^' => a.powf(b),
                _ => panic!("unknown operator {}", op),
            }
        }
    }
}

fn eval_str(s: &str) -> f64 {
    value(&parse_expression(s.to_string()).unwrap())
}

fn tokens_of(s: &str) -> Result<Vec<Token>, LexError> {
    tokenize(&split(s.to_string()))
}

fn num(s: &str) -> Token {
    Token::Number(s.to_string())
}

fn leaf(s: &str) -> Box<Expr> {
    Box::new(Expr::Number(s.to_string()))
}

#[test]
fn split_keeps_characters_in_order() {
    assert_eq!(split("1+ é".to_string()), vec!['1', '+', ' ', 'é']);
    assert_eq!(split(String::new()), Vec::<char>::new());
}

#[test]
fn precedence_table() {
    assert_eq!(precedence('^'), 3);
    assert_eq!(precedence('*'), 2);
    assert_eq!(precedence('/'), 2);
    assert_eq!(precedence('+'), 1);
    assert_eq!(precedence('-'), 1);
    assert_eq!(precedence('x'), 0);
    assert!(is_right_associative('^'));
    assert!(!is_right_associative('-'));
}

#[test]
fn multiplication_binds_tighter_than_addition() {
    let tokens = tokens_of("3 + 4 * 2").unwrap();
    assert_eq!(
        tokens,
        vec![num("3"), Token::Operator('+'), num("4"), Token::Operator('*'), num("2")]
    );
    let rpn = to_postfix(tokens);
    assert_eq!(
        rpn,
        vec![num("3"), num("4"), num("2"), Token::Operator('*'), Token::Operator('+')]
    );
    let e = eval_rpn(rpn).unwrap();
    assert_eq!(value(&e), 11.0);
}

#[test]
fn parentheses_group_first() {
    assert_eq!(eval_str("(1 + 2) * 3"), 9.0);
}

#[test]
fn power_groups_from_the_right() {
    let e = parse_expression("2 ^ 3 ^ 2".to_string()).unwrap();
    assert_eq!(
        e,
        Expr::Binary('^', leaf("2"), Box::new(Expr::Binary('^', leaf("3"), leaf("2"))))
    );
    assert_eq!(value(&e), 512.0);
}

#[test]
fn leading_minus_is_a_sign() {
    assert_eq!(
        tokens_of("-5 + 3").unwrap(),
        vec![num("-5"), Token::Operator('+'), num("3")]
    );
    assert_eq!(eval_str("-5 + 3"), -2.0);
}

#[test]
fn minus_after_operator_is_a_sign() {
    assert_eq!(
        tokens_of("2 - -3").unwrap(),
        vec![num("2"), Token::Operator('-'), num("-3")]
    );
    assert_eq!(eval_str("2 - -3"), 5.0);
    assert_eq!(eval_str("2*(-3)"), -6.0);
}

#[test]
fn division_by_zero_gives_infinity() {
    // Division by zero is no error: the tree is built and its value is the
    // IEEE infinity.
    let e = parse_expression("10 / 0".to_string()).unwrap();
    assert_eq!(e, Expr::Binary('/', leaf("10"), leaf("0")));
    let v = value(&e);
    assert!(v.is_infinite() && v > 0.0);
}

#[test]
fn missing_right_operand() {
    assert_eq!(
        parse_expression("2 +".to_string()),
        Err(CalcError::Eval(EvalError::MissingOperand))
    );
}

#[test]
fn unexpected_character_is_reported_with_position() {
    assert_eq!(
        tokens_of("3 & 4"),
        Err(LexError::UnexpectedCharacter('&', 2))
    );
    assert_eq!(
        parse_expression("3 & 4".to_string()),
        Err(CalcError::Lex(LexError::UnexpectedCharacter('&', 2)))
    );
}

#[test]
fn tokenizing_twice_gives_the_same_tokens() {
    let s = "(1.5 + -2) * 3 ^ 2 / 4 - 7";
    assert_eq!(tokens_of(s), tokens_of(s));
    assert!(tokens_of(s).is_ok());
}

#[test]
fn subtraction_groups_from_the_left() {
    assert_eq!(eval_str("1 - 2 - 3"), -4.0);
    assert_eq!(eval_str("8 / 4 / 2"), 1.0);
}

#[test]
fn mixed_precedence_evaluates_in_standard_order() {
    assert_eq!(eval_str("2 * (3 + 4) - 5 / 5"), 13.0);
    assert_eq!(eval_str("1 + 2 ^ 2 * 3"), 13.0);
    assert_eq!(eval_str("0.5 + .25 + 2."), 2.75);
}

#[test]
fn multi_digit_literal_text_is_kept() {
    assert_eq!(tokens_of("123.45").unwrap(), vec![num("123.45")]);
}

#[test]
fn whitespace_and_line_end_are_skipped() {
    assert_eq!(eval_str(" \t 7 \n"), 7.0);
}

#[test]
fn whitespace_does_not_end_a_number() {
    assert_eq!(tokens_of("3 4").unwrap(), vec![num("34")]);
}

#[test]
fn malformed_numbers_are_errors() {
    assert_eq!(
        tokens_of("1.2.3 + 1"),
        Err(LexError::MalformedNumber("1.2.3".to_string()))
    );
    assert_eq!(tokens_of("."), Err(LexError::MalformedNumber(".".to_string())));
    assert_eq!(tokens_of("--5"), Err(LexError::MalformedNumber("--5".to_string())));
    assert_eq!(tokens_of("-"), Err(LexError::MalformedNumber("-".to_string())));
}

#[test]
fn empty_input_has_no_result() {
    assert_eq!(tokens_of("").unwrap(), Vec::<Token>::new());
    assert_eq!(
        parse_expression("   ".to_string()),
        Err(CalcError::Eval(EvalError::NoResult))
    );
    assert_eq!(
        parse_expression("()".to_string()),
        Err(CalcError::Eval(EvalError::NoResult))
    );
}

#[test]
fn two_values_left_over() {
    assert_eq!(
        parse_expression("(1)(2)".to_string()),
        Err(CalcError::Eval(EvalError::ExtraOperands))
    );
}

#[test]
fn unclosed_parenthesis_is_malformed() {
    let rpn = to_postfix(tokens_of("(1 + 2").unwrap());
    assert_eq!(rpn, vec![num("1"), num("2"), Token::Operator('+'), Token::LParen]);
    assert_eq!(eval_rpn(rpn), Err(EvalError::MalformedExpression));
}

#[test]
fn unmatched_closing_parenthesis_is_tolerated() {
    let rpn = to_postfix(tokens_of("1 + 2) * 3").unwrap());
    assert_eq!(
        rpn,
        vec![num("1"), num("2"), Token::Operator('+'), num("3"), Token::Operator('*')]
    );
    assert_eq!(eval_str("1 + 2) * 3"), 9.0);
}

#[test]
fn postfix_with_parenthesis_or_unknown_operator_is_malformed() {
    assert_eq!(
        eval_rpn(vec![num("1"), Token::RParen]),
        Err(EvalError::MalformedExpression)
    );
    assert_eq!(
        eval_rpn(vec![num("1"), num("2"), Token::Operator('%')]),
        Err(EvalError::MalformedExpression)
    );
    assert_eq!(eval_rpn(vec![Token::Operator('+')]), Err(EvalError::MissingOperand));
}

#[test]
fn operator_builds_left_then_right() {
    assert_eq!(
        eval_rpn(vec![num("7"), num("2"), Token::Operator('-')]),
        Ok(Expr::Binary('-', leaf("7"), leaf("2")))
    );
}

#[test]
fn written_tree_reads_back_as_itself() {
    // 2 ^ (1 + 1) ^ 2 - 3 * (4 - 5)
    let right = Expr::Binary(
        '^',
        Box::new(Expr::Binary('+', leaf("1"), leaf("1"))),
        leaf("2"),
    );
    let pow = Expr::Binary('^', leaf("2"), Box::new(right));
    let prod = Expr::Binary('*', leaf("3"), Box::new(Expr::Binary('-', leaf("4"), leaf("5"))));
    let tree = Expr::Binary('-', Box::new(pow), Box::new(prod));
    let e = parse_expression("2^(1+1)^2-3*(4-5)".to_string()).unwrap();
    assert_eq!(e, tree);
    assert_eq!(value(&e), 19.0);
}
