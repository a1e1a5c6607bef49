use infix_calc::{
    build_expr, convert, parse_expression, sanitize_whitespace, tokenize, DelimType, Error, Expr,
    OperatorType, Token,
};

fn value(e: &Expr) -> Result<f64, Error> {
    match e {
        Expr::Number(text) => Ok(text.parse::<f64>().unwrap()),
        Expr::Binary(op, l, r) => {
            let left = value(l)?;
            let right = value(r)?;
            match op {
                OperatorType::Add => Ok(left + right),
                OperatorType::Subtract => Ok(left - right),
                OperatorType::Multiply => Ok(left * right),
                OperatorType::Divide => {
                    if right == 0.0 {
                        Err(Error::DivideByZero)
                    } else {
                        Ok(left / right)
                    }
                }
                OperatorType::Power => Ok(left.powf(right)),
            }
        }
    }
}

fn compute(input: &str) -> Result<f64, Error> {
    value(&parse_expression(input)?)
}

fn num(s: &str) -> Token {
    Token::Number(s.to_string())
}

fn op(o: OperatorType) -> Token {
    Token::Operator(o)
}

fn postfix(input: &str) -> Result<Vec<Token>, Error> {
    convert(&tokenize(input)?)
}

#[test]
fn precedence_gives_postfix_and_value() {
    let p = postfix("3 + 4 * 2").unwrap();
    assert_eq!(
        p,
        vec![
            num("3"),
            num("4"),
            num("2"),
            op(OperatorType::Multiply),
            op(OperatorType::Add)
        ]
    );
    assert_eq!(value(&build_expr(&p).unwrap()).unwrap(), 11.0);
    assert_eq!(compute("3 + 4 * 2"), Ok(11.0));
}

#[test]
fn nested_brackets_then_power() {
    assert_eq!(compute("(5 * (2 + 2)) ^ 2"), Ok(400.0));
}

#[test]
fn power_is_right_associative() {
    assert_eq!(
        postfix("2 ^ 3 ^ 2").unwrap(),
        vec![
            num("2"),
            num("3"),
            num("2"),
            op(OperatorType::Power),
            op(OperatorType::Power)
        ]
    );
    assert_eq!(compute("2 ^ 3 ^ 2"), Ok(512.0));
}

#[test]
fn division_by_zero_fails() {
    assert_eq!(compute("20 / 0"), Err(Error::DivideByZero));
    assert_eq!(compute("1 / (2 - 2)"), Err(Error::DivideByZero));
    assert_eq!(compute("0 / 5"), Ok(0.0));
}

#[test]
fn unclosed_bracket_fails() {
    assert_eq!(tokenize("(1 + 2"), Err(Error::UnmatchedBracket));
    assert_eq!(compute("(1 + 2"), Err(Error::UnmatchedBracket));
}

#[test]
fn closing_bracket_before_opening_fails() {
    let tokens = tokenize(")1(").unwrap();
    assert_eq!(convert(&tokens), Err(Error::UnmatchedBracket));
}

#[test]
fn adjacent_operators_fail() {
    assert_eq!(compute("3 + + 4"), Err(Error::DanglingOperator));
    assert_eq!(compute("3 * - 4"), Err(Error::DanglingOperator));
}

#[test]
fn blank_input_is_empty() {
    assert_eq!(tokenize(""), Err(Error::EmptyExpression));
    assert_eq!(tokenize("   "), Err(Error::EmptyExpression));
    assert_eq!(compute(" \t\n "), Err(Error::EmptyExpression));
}

#[test]
fn foreign_character_fails() {
    assert_eq!(compute("3 # 4"), Err(Error::InvalidChar));
    assert_eq!(tokenize("2 x 3"), Err(Error::InvalidChar));
}

#[test]
fn malformed_numerals_fail() {
    assert_eq!(tokenize("1.2.3"), Err(Error::InvalidChar));
    assert_eq!(tokenize(".5 + 1"), Err(Error::InvalidChar));
    assert_eq!(tokenize("5. + 1").unwrap()[0], num("5."));
}

#[test]
fn same_input_same_outcome() {
    for input in ["1 + 2 * 3", "(4 - 1) ^ 2 / 3", "3 + + 4", "(1", "7 # 2"] {
        assert_eq!(parse_expression(input), parse_expression(input));
        assert_eq!(compute(input), compute(input));
    }
}

#[test]
fn binary_operations_match_direct_arithmetic() {
    let pairs = [("7", 7.0_f64, "2", 2.0_f64), ("1.5", 1.5, "4", 4.0), ("9", 9.0, "0.5", 0.5)];
    for (a, x, b, y) in pairs {
        assert_eq!(compute(&format!("{} + {}", a, b)), Ok(x + y));
        assert_eq!(compute(&format!("{} - {}", a, b)), Ok(x - y));
        assert_eq!(compute(&format!("{} * {}", a, b)), Ok(x * y));
        assert_eq!(compute(&format!("{} / {}", a, b)), Ok(x / y));
        assert_eq!(compute(&format!("{} ^ {}", a, b)), Ok(x.powf(y)));
    }
}

#[test]
fn binary_tree_shape() {
    let e = parse_expression("12 - 3.5").unwrap();
    assert_eq!(
        e,
        Expr::Binary(
            OperatorType::Subtract,
            Box::new(Expr::Number("12".to_string())),
            Box::new(Expr::Number("3.5".to_string()))
        )
    );
}

#[test]
fn whitespace_is_removed_everywhere() {
    assert_eq!(sanitize_whitespace("  1 +\t2 \n* 3  "), "1+2*3");
    assert_eq!(sanitize_whitespace("4\u{A0}2"), "42");
    assert_eq!(sanitize_whitespace(""), "");
}

#[test]
fn tokens_of_every_kind() {
    assert_eq!(
        tokenize("(10.25+3)-4*5/6^7").unwrap(),
        vec![
            Token::Delimiter(DelimType::OpenParen),
            num("10.25"),
            op(OperatorType::Add),
            num("3"),
            Token::Delimiter(DelimType::CloseParen),
            op(OperatorType::Subtract),
            num("4"),
            op(OperatorType::Multiply),
            num("5"),
            op(OperatorType::Divide),
            num("6"),
            op(OperatorType::Power),
            num("7"),
        ]
    );
}

#[test]
fn power_chain_ends_at_lower_operator() {
    assert_eq!(
        postfix("2 * 3 ^ 2 + 1").unwrap(),
        vec![
            num("2"),
            num("3"),
            num("2"),
            op(OperatorType::Power),
            op(OperatorType::Multiply),
            num("1"),
            op(OperatorType::Add)
        ]
    );
    assert_eq!(compute("2 * 3 ^ 2 + 1"), Ok(19.0));
    assert_eq!(compute("2 ^ 3 * 4"), Ok(32.0));
}

#[test]
fn power_chain_inside_brackets_leaves_no_marker() {
    let p = postfix("(2 ^ 3) * 2").unwrap();
    assert!(!p.contains(&Token::PowerMarker));
    assert_eq!(compute("(2 ^ 3) * 2"), Ok(16.0));
    let q = postfix("1 + 2 ^ 3").unwrap();
    assert!(!q.contains(&Token::PowerMarker));
    assert_eq!(compute("1 + 2 ^ 3"), Ok(9.0));
}

#[test]
fn equal_precedence_is_left_associative() {
    assert_eq!(compute("10 - 4 - 3"), Ok(3.0));
    assert_eq!(compute("64 / 4 / 2"), Ok(8.0));
}

#[test]
fn missing_operand_is_reported() {
    assert_eq!(compute("3 +"), Err(Error::MissingOperand));
    assert_eq!(compute("* 3"), Err(Error::MissingOperand));
}

#[test]
fn missing_operator_is_reported() {
    assert_eq!(compute("(1)(2)"), Err(Error::MissingOperator));
}

#[test]
fn empty_brackets_hold_no_expression() {
    assert_eq!(compute("()"), Err(Error::EmptyExpression));
}

#[test]
fn brackets_in_postfix_are_invalid() {
    let p = vec![num("1"), Token::Delimiter(DelimType::OpenParen)];
    assert_eq!(build_expr(&p), Err(Error::InvalidPostfix));
    let q = vec![num("1"), num("2"), Token::PowerMarker];
    assert_eq!(build_expr(&q), Err(Error::InvalidPostfix));
}

#[test]
fn marker_in_infix_input_is_rejected() {
    let tokens = vec![num("1"), Token::PowerMarker, num("2")];
    assert_eq!(convert(&tokens), Err(Error::InvalidChar));
}

#[test]
fn messages_and_symbols() {
    assert_eq!(Error::DivideByZero.message(), "Cannot divide number by zero");
    assert_eq!(Error::EmptyExpression.message(), "Operation is empty");
    assert_eq!(Error::UnmatchedBracket.message(), "One or more brackets are lonely");
    assert_eq!(Error::InvalidChar.message(), "Operation contains invalid char");
    assert_eq!(Error::DanglingOperator.message(), "Operator must between two numbers");
    assert_eq!(
        Error::MissingOperator.message(),
        "Operator is missing before the parenthesis"
    );
    assert_eq!(
        Error::InvalidPostfix.message(),
        "Only operators and numbers are allowed to be inside the postfix"
    );
    assert_eq!(
        Error::MissingOperand.message(),
        "An operator is missing one of its operands"
    );
    assert_eq!(OperatorType::Power.symbol(), '^');
    assert_eq!(OperatorType::Divide.symbol(), '/');
}
