use graphcalc::parser::{parse, ASTNodeType, Expected, ParseError};
use graphcalc::scanner::{scan, TokenType};

fn tree(text: &str) -> Result<ASTNodeType, ParseError> {
    parse(&scan(&String::from(text)).unwrap())
}

fn num(text: &str) -> ASTNodeType {
    ASTNodeType::AtomicExpression(TokenType::NumLiteral(String::from(text)))
}

fn x() -> ASTNodeType {
    ASTNodeType::AtomicExpression(TokenType::Variable(String::from("x")))
}

fn binary(operator: TokenType, left: ASTNodeType, right: ASTNodeType) -> ASTNodeType {
    ASTNodeType::BinaryExpression(operator, Box::new(left), Box::new(right))
}

fn negated(operand: ASTNodeType) -> ASTNodeType {
    ASTNodeType::UnaryExpression(TokenType::Sub, Box::new(operand))
}

fn call(name: &str, argument: ASTNodeType) -> ASTNodeType {
    ASTNodeType::FunctionExpression(
        TokenType::FunctionName(String::from(name)),
        Box::new(argument),
    )
}

#[test]
fn test_parse() {
    let expr = String::from("2 * sin(x)");
    let tokens = scan(&expr).unwrap();
    let result = parse(&tokens);
    println!("{:?}", result);
    assert_eq!(result, Ok(binary(TokenType::Mul, num("2"), call("sin", x()))));
}

#[test]
fn parse_reads_atoms() {
    assert_eq!(tree("x"), Ok(x()));
    assert_eq!(tree("42"), Ok(num("42")));
    assert_eq!(
        tree("pi"),
        Ok(ASTNodeType::AtomicExpression(TokenType::Constant(String::from("pi"))))
    );
    assert_eq!(tree("((x))"), Ok(x()));
}

#[test]
fn parse_folds_sums_to_the_left() {
    let expected = binary(
        TokenType::Add,
        binary(TokenType::Sub, num("1"), num("2")),
        num("3"),
    );
    assert_eq!(tree("1 - 2 + 3"), Ok(expected));
}

#[test]
fn parse_folds_products_to_the_left() {
    let expected = binary(
        TokenType::Mul,
        binary(TokenType::Div, num("1"), num("2")),
        num("3"),
    );
    assert_eq!(tree("1 / 2 * 3"), Ok(expected));
}

#[test]
fn parse_nests_powers_to_the_right() {
    let expected = binary(
        TokenType::Exp,
        num("2"),
        binary(TokenType::Exp, num("3"), num("4")),
    );
    assert_eq!(tree("2 ^ 3 ^ 4"), Ok(expected));
}

#[test]
fn parse_binds_products_tighter_than_sums() {
    let expected = binary(
        TokenType::Add,
        num("1"),
        binary(TokenType::Mul, num("2"), x()),
    );
    assert_eq!(tree("1 + 2 * x"), Ok(expected));
    let expected = binary(
        TokenType::Mul,
        binary(TokenType::Add, num("1"), num("2")),
        x(),
    );
    assert_eq!(tree("(1 + 2) * x"), Ok(expected));
}

#[test]
fn parse_binds_powers_tighter_than_negation() {
    assert_eq!(tree("-x^2"), Ok(negated(binary(TokenType::Exp, x(), num("2")))));
    assert_eq!(tree("--x"), Ok(negated(negated(x()))));
    assert_eq!(
        tree("2 * -x"),
        Ok(binary(TokenType::Mul, num("2"), negated(x())))
    );
}

#[test]
fn parse_takes_a_negated_exponent_for_an_error() {
    assert_eq!(
        tree("2 ^ -x"),
        Err(ParseError::ExpectedToken(Expected::Expression, TokenType::Sub))
    );
}

#[test]
fn parse_reads_nested_calls() {
    assert_eq!(
        tree("sin(cos(x) + 1)"),
        Ok(call("sin", binary(TokenType::Add, call("cos", x()), num("1"))))
    );
}

#[test]
fn parse_rejects_trailing_tokens() {
    assert_eq!(tree("2 2"), Err(ParseError::TrailingTokens));
    assert_eq!(tree("x)"), Err(ParseError::TrailingTokens));
    assert_eq!(tree("sin(x) x"), Err(ParseError::TrailingTokens));
}

#[test]
fn parse_rejects_unbalanced_parentheses() {
    assert_eq!(tree("sin(x"), Err(ParseError::UnexpectedEndOfInput));
    assert_eq!(tree("(x + 1"), Err(ParseError::UnexpectedEndOfInput));
    assert_eq!(
        tree("(x 1)"),
        Err(ParseError::ExpectedToken(
            Expected::RightParen,
            TokenType::NumLiteral(String::from("1"))
        ))
    );
}

#[test]
fn parse_rejects_an_empty_sequence() {
    assert_eq!(parse(&vec![]), Err(ParseError::UnexpectedEndOfInput));
}

#[test]
fn parse_rejects_input_that_ends_early() {
    assert_eq!(tree("1 +"), Err(ParseError::UnexpectedEndOfInput));
    assert_eq!(tree("2 *"), Err(ParseError::UnexpectedEndOfInput));
    assert_eq!(tree("-"), Err(ParseError::UnexpectedEndOfInput));
    assert_eq!(tree("2 ^"), Err(ParseError::UnexpectedEndOfInput));
    assert_eq!(tree("sin"), Err(ParseError::UnexpectedEndOfInput));
    assert_eq!(tree("sin("), Err(ParseError::UnexpectedEndOfInput));
    assert_eq!(tree("("), Err(ParseError::UnexpectedEndOfInput));
}

#[test]
fn parse_wants_a_parenthesis_after_a_function_name() {
    assert_eq!(
        tree("sin x"),
        Err(ParseError::ExpectedToken(
            Expected::LeftParen,
            TokenType::Variable(String::from("x"))
        ))
    );
}

#[test]
fn parse_wants_an_expression_where_an_operator_stands() {
    assert_eq!(
        tree("* 2"),
        Err(ParseError::ExpectedToken(Expected::Expression, TokenType::Mul))
    );
    assert_eq!(
        tree("()"),
        Err(ParseError::ExpectedToken(Expected::Expression, TokenType::RightParen))
    );
    assert_eq!(
        tree("1 + + 2"),
        Err(ParseError::ExpectedToken(Expected::Expression, TokenType::Add))
    );
}

#[test]
fn parse_accepts_any_name_as_a_function() {
    let tokens = vec![
        TokenType::FunctionName(String::from("frobnicate")),
        TokenType::LeftParen,
        TokenType::Variable(String::from("x")),
        TokenType::RightParen,
    ];
    assert_eq!(parse(&tokens), Ok(call("frobnicate", x())));
}
