//! The parser: from tokens to a syntax tree.
//!
//! ```text
//! Expression := Term (('+' | '-') Term)*
//! Term       := Unary (('*' | '/') Unary)*
//! Unary      := '-' Unary | Power
//! Power      := Function ('^' Power)?
//! Function   := name '(' Expression ')' | Atom
//! Atom       := number | constant | variable | '(' Expression ')'
//! ```
use vstd::prelude::*;
use crate::scanner::{all_lexical, constants, functions, tokens_view, Token, TokenType};

verus! {

/// A node of the syntax tree.
#[derive(Debug, PartialEq)]
pub enum ASTNodeType {
    BinaryExpression(TokenType, Box<ASTNodeType>, Box<ASTNodeType>),
    UnaryExpression(TokenType, Box<ASTNodeType>),
    FunctionExpression(TokenType, Box<ASTNodeType>),
    AtomicExpression(TokenType),
}

/// A syntax tree, as mathematics.
pub enum Expr {
    Binary(Token, Box<Expr>, Box<Expr>),
    Unary(Token, Box<Expr>),
    Function(Token, Box<Expr>),
    Atomic(Token),
}

/// The tree that a node stands for.
pub open spec fn tree_view(node: ASTNodeType) -> Expr
    decreases node,
{
    match node {
        ASTNodeType::BinaryExpression(operator, left, right) => Expr::Binary(
            operator@,
            Box::new(tree_view(*left)),
            Box::new(tree_view(*right)),
        ),
        ASTNodeType::UnaryExpression(operator, operand) => Expr::Unary(
            operator@,
            Box::new(tree_view(*operand)),
        ),
        ASTNodeType::FunctionExpression(name, argument) => Expr::Function(
            name@,
            Box::new(tree_view(*argument)),
        ),
        ASTNodeType::AtomicExpression(token) => Expr::Atomic(token@),
    }
}

impl View for ASTNodeType {
    type V = Expr;

    open spec fn view(&self) -> Expr {
        tree_view(*self)
    }
}

/// What the parser was looking for where it gave up.
#[derive(Debug, PartialEq, Eq, Clone, Copy, Structural)]
pub enum Expected {
    /// The `(` that opens a function's argument.
    LeftParen,
    /// The `)` that closes a group or an argument.
    RightParen,
    /// A number, a constant, a variable, a function or a group.
    Expression,
}

/// Why a sequence of tokens is not a formula.
#[derive(Debug, PartialEq)]
pub enum ParseError {
    /// The tokens ran out in the middle of a production.
    UnexpectedEndOfInput,
    /// Another token stands where the grammar wants the expected one.
    ExpectedToken(Expected, TokenType),
    /// A whole expression was read and tokens are left over.
    TrailingTokens,
}

/// A parse error, as mathematics.
pub enum ParseFailure {
    UnexpectedEndOfInput,
    ExpectedToken(Expected, Token),
    TrailingTokens,
}

impl View for ParseError {
    type V = ParseFailure;

    open spec fn view(&self) -> ParseFailure {
        match self {
            ParseError::UnexpectedEndOfInput => ParseFailure::UnexpectedEndOfInput,
            ParseError::ExpectedToken(expected, found) => ParseFailure::ExpectedToken(
                *expected,
                found@,
            ),
            ParseError::TrailingTokens => ParseFailure::TrailingTokens,
        }
    }
}

/// What a production gives: the tree it read and the index behind its last
/// token, or the reason it read none.
pub type Parsed = Result<(Expr, int), ParseFailure>;

/// `parsed`, provided it ends behind `start` and no later than `end`. Every
/// production reads at least one token and none beyond the last; this says
/// so where a definition leans on it.
pub open spec fn advancing(parsed: Parsed, start: int, end: int) -> Parsed {
    match parsed {
        Ok((_, next)) => if start < next <= end {
            parsed
        } else {
            Err(ParseFailure::UnexpectedEndOfInput)
        },
        Err(_) => parsed,
    }
}

/// The check that `expected` stands at `at`: nothing on success.
pub open spec fn expect(tokens: Seq<Token>, at: int, token: Token, expected: Expected) -> Option<
    ParseFailure,
> {
    if at < 0 || at >= tokens.len() {
        Some(ParseFailure::UnexpectedEndOfInput)
    } else if tokens[at] != token {
        Some(ParseFailure::ExpectedToken(expected, tokens[at]))
    } else {
        None
    }
}

/// `Atom := number | constant | variable | '(' Expression ')'`
pub open spec fn atom(tokens: Seq<Token>, start: int) -> Parsed
    decreases tokens.len() - start, 0int,
{
    if start < 0 || start >= tokens.len() {
        Err(ParseFailure::UnexpectedEndOfInput)
    } else {
        match tokens[start] {
            Token::NumLiteral(_) | Token::Constant(_) | Token::Variable(_) => Ok(
                (Expr::Atomic(tokens[start]), start + 1),
            ),
            Token::LeftParen => match expression(tokens, start + 1) {
                Err(e) => Err(e),
                Ok((inner, next)) => match expect(
                    tokens,
                    next,
                    Token::RightParen,
                    Expected::RightParen,
                ) {
                    Some(e) => Err(e),
                    None => Ok((inner, next + 1)),
                },
            },
            other => Err(ParseFailure::ExpectedToken(Expected::Expression, other)),
        }
    }
}

/// `Function := name '(' Expression ')' | Atom`
pub open spec fn function(tokens: Seq<Token>, start: int) -> Parsed
    decreases tokens.len() - start, 1int,
{
    if start < 0 || start >= tokens.len() {
        Err(ParseFailure::UnexpectedEndOfInput)
    } else if tokens[start] is FunctionName {
        match expect(tokens, start + 1, Token::LeftParen, Expected::LeftParen) {
            Some(e) => Err(e),
            None => match expression(tokens, start + 2) {
                Err(e) => Err(e),
                Ok((argument, next)) => match expect(
                    tokens,
                    next,
                    Token::RightParen,
                    Expected::RightParen,
                ) {
                    Some(e) => Err(e),
                    None => Ok((Expr::Function(tokens[start], Box::new(argument)), next + 1)),
                },
            },
        }
    } else {
        atom(tokens, start)
    }
}

/// `Power := Function ('^' Power)?`, so that `a ^ b ^ c` is `a ^ (b ^ c)`.
pub open spec fn power(tokens: Seq<Token>, start: int) -> Parsed
    decreases tokens.len() - start, 2int,
{
    if start < 0 || start >= tokens.len() {
        Err(ParseFailure::UnexpectedEndOfInput)
    } else {
        match advancing(function(tokens, start), start, tokens.len() as int) {
            Err(e) => Err(e),
            Ok((base, next)) => if next < tokens.len() && tokens[next] == Token::Exp {
                match power(tokens, next + 1) {
                    Err(e) => Err(e),
                    Ok((exponent, after)) => Ok(
                        (Expr::Binary(tokens[next], Box::new(base), Box::new(exponent)), after),
                    ),
                }
            } else {
                Ok((base, next))
            },
        }
    }
}

/// `Unary := '-' Unary | Power`
pub open spec fn unary(tokens: Seq<Token>, start: int) -> Parsed
    decreases tokens.len() - start, 3int,
{
    if start < 0 || start >= tokens.len() {
        Err(ParseFailure::UnexpectedEndOfInput)
    } else if tokens[start] == Token::Sub {
        match unary(tokens, start + 1) {
            Err(e) => Err(e),
            Ok((operand, next)) => Ok((Expr::Unary(tokens[start], Box::new(operand)), next)),
        }
    } else {
        power(tokens, start)
    }
}

/// The `(('*' | '/') Unary)*` that follows the factors read so far, folded to
/// the left: `a / b * c` is `(a / b) * c`.
pub open spec fn term_rest(tokens: Seq<Token>, left: Expr, next: int) -> Parsed
    decreases tokens.len() - next, 4int,
{
    if 0 <= next < tokens.len() && (tokens[next] == Token::Mul || tokens[next] == Token::Div) {
        match advancing(unary(tokens, next + 1), next, tokens.len() as int) {
            Err(e) => Err(e),
            Ok((right, after)) => term_rest(
                tokens,
                Expr::Binary(tokens[next], Box::new(left), Box::new(right)),
                after,
            ),
        }
    } else {
        Ok((left, next))
    }
}

/// `Term := Unary (('*' | '/') Unary)*`
pub open spec fn term(tokens: Seq<Token>, start: int) -> Parsed
    decreases tokens.len() - start, 5int,
{
    if start < 0 || start >= tokens.len() {
        Err(ParseFailure::UnexpectedEndOfInput)
    } else {
        match advancing(unary(tokens, start), start, tokens.len() as int) {
            Err(e) => Err(e),
            Ok((left, next)) => term_rest(tokens, left, next),
        }
    }
}

/// The `(('+' | '-') Term)*` that follows the terms read so far, folded to
/// the left: `a - b + c` is `(a - b) + c`.
pub open spec fn expression_rest(tokens: Seq<Token>, left: Expr, next: int) -> Parsed
    decreases tokens.len() - next, 6int,
{
    if 0 <= next < tokens.len() && (tokens[next] == Token::Add || tokens[next] == Token::Sub) {
        match advancing(term(tokens, next + 1), next, tokens.len() as int) {
            Err(e) => Err(e),
            Ok((right, after)) => expression_rest(
                tokens,
                Expr::Binary(tokens[next], Box::new(left), Box::new(right)),
                after,
            ),
        }
    } else {
        Ok((left, next))
    }
}

/// `Expression := Term (('+' | '-') Term)*`
pub open spec fn expression(tokens: Seq<Token>, start: int) -> Parsed
    decreases tokens.len() - start, 7int,
{
    if start < 0 || start >= tokens.len() {
        Err(ParseFailure::UnexpectedEndOfInput)
    } else {
        match advancing(term(tokens, start), start, tokens.len() as int) {
            Err(e) => Err(e),
            Ok((left, next)) => expression_rest(tokens, left, next),
        }
    }
}

/// The tree of a whole sequence of tokens: that of the expression at its
/// start, provided the expression ends where the tokens end.
pub open spec fn parse_tokens(tokens: Seq<Token>) -> Result<Expr, ParseFailure> {
    match expression(tokens, 0) {
        Err(e) => Err(e),
        Ok((tree, stop)) => if stop != tokens.len() {
            Err(ParseFailure::TrailingTokens)
        } else {
            Ok(tree)
        },
    }
}

/// `parsed`, where it is a tree, ends behind `start` and within `end`.
pub open spec fn ends_within(parsed: Parsed, start: int, end: int) -> bool {
    parsed is Ok ==> start < parsed->Ok_0.1 <= end
}

/// An atom reads at least one token and none beyond the last.
pub proof fn lemma_atom_advances(tokens: Seq<Token>, start: int)
    ensures
        ends_within(atom(tokens, start), start, tokens.len() as int),
    decreases tokens.len() - start, 0int,
{
    if 0 <= start < tokens.len() && tokens[start] == Token::LeftParen {
        lemma_expression_advances(tokens, start + 1);
    }
}

/// A function call reads at least one token and none beyond the last.
pub proof fn lemma_function_advances(tokens: Seq<Token>, start: int)
    ensures
        ends_within(function(tokens, start), start, tokens.len() as int),
    decreases tokens.len() - start, 1int,
{
    if 0 <= start < tokens.len() {
        if tokens[start] is FunctionName {
            if expect(tokens, start + 1, Token::LeftParen, Expected::LeftParen) is None {
                lemma_expression_advances(tokens, start + 2);
            }
        } else {
            lemma_atom_advances(tokens, start);
        }
    }
}

/// A power reads at least one token and none beyond the last.
pub proof fn lemma_power_advances(tokens: Seq<Token>, start: int)
    ensures
        ends_within(power(tokens, start), start, tokens.len() as int),
    decreases tokens.len() - start, 2int,
{
    if 0 <= start < tokens.len() {
        lemma_function_advances(tokens, start);
        match function(tokens, start) {
            Ok((_, next)) => {
                if next < tokens.len() && tokens[next] == Token::Exp {
                    lemma_power_advances(tokens, next + 1);
                }
            },
            Err(_) => {},
        }
    }
}

/// A negation reads at least one token and none beyond the last.
pub proof fn lemma_unary_advances(tokens: Seq<Token>, start: int)
    ensures
        ends_within(unary(tokens, start), start, tokens.len() as int),
    decreases tokens.len() - start, 3int,
{
    if 0 <= start < tokens.len() {
        if tokens[start] == Token::Sub {
            lemma_unary_advances(tokens, start + 1);
        } else {
            lemma_power_advances(tokens, start);
        }
    }
}

/// Further factors end no earlier than the factors before them.
pub proof fn lemma_term_rest_advances(tokens: Seq<Token>, left: Expr, next: int)
    requires
        0 <= next <= tokens.len(),
    ensures
        term_rest(tokens, left, next) is Ok ==> next <= term_rest(tokens, left, next)->Ok_0.1
            <= tokens.len(),
    decreases tokens.len() - next, 4int,
{
    if next < tokens.len() && (tokens[next] == Token::Mul || tokens[next] == Token::Div) {
        lemma_unary_advances(tokens, next + 1);
        match unary(tokens, next + 1) {
            Ok((right, after)) => {
                lemma_term_rest_advances(
                    tokens,
                    Expr::Binary(tokens[next], Box::new(left), Box::new(right)),
                    after,
                );
            },
            Err(_) => {},
        }
    }
}

/// A term reads at least one token and none beyond the last.
pub proof fn lemma_term_advances(tokens: Seq<Token>, start: int)
    ensures
        ends_within(term(tokens, start), start, tokens.len() as int),
    decreases tokens.len() - start, 5int,
{
    if 0 <= start < tokens.len() {
        lemma_unary_advances(tokens, start);
        match unary(tokens, start) {
            Ok((left, next)) => {
                lemma_term_rest_advances(tokens, left, next);
            },
            Err(_) => {},
        }
    }
}

/// Further terms end no earlier than the terms before them.
pub proof fn lemma_expression_rest_advances(tokens: Seq<Token>, left: Expr, next: int)
    requires
        0 <= next <= tokens.len(),
    ensures
        expression_rest(tokens, left, next) is Ok ==> next <= expression_rest(
            tokens,
            left,
            next,
        )->Ok_0.1 <= tokens.len(),
    decreases tokens.len() - next, 6int,
{
    if next < tokens.len() && (tokens[next] == Token::Add || tokens[next] == Token::Sub) {
        lemma_term_advances(tokens, next + 1);
        match term(tokens, next + 1) {
            Ok((right, after)) => {
                lemma_expression_rest_advances(
                    tokens,
                    Expr::Binary(tokens[next], Box::new(left), Box::new(right)),
                    after,
                );
            },
            Err(_) => {},
        }
    }
}

/// An expression reads at least one token and none beyond the last.
pub proof fn lemma_expression_advances(tokens: Seq<Token>, start: int)
    ensures
        ends_within(expression(tokens, start), start, tokens.len() as int),
    decreases tokens.len() - start, 7int,
{
    if 0 <= start < tokens.len() {
        lemma_term_advances(tokens, start);
        match term(tokens, start) {
            Ok((left, next)) => {
                lemma_expression_rest_advances(tokens, left, next);
            },
            Err(_) => {},
        }
    }
}

/// Every production ends behind its start and within the tokens, so that
/// `advancing` changes none of them.
pub proof fn lemma_advancing_changes_nothing(tokens: Seq<Token>, start: int)
    ensures
        advancing(function(tokens, start), start, tokens.len() as int) == function(tokens, start),
        advancing(unary(tokens, start), start, tokens.len() as int) == unary(tokens, start),
        advancing(unary(tokens, start + 1), start, tokens.len() as int) == unary(
            tokens,
            start + 1,
        ),
        advancing(term(tokens, start), start, tokens.len() as int) == term(tokens, start),
        advancing(term(tokens, start + 1), start, tokens.len() as int) == term(tokens, start + 1),
{
    lemma_function_advances(tokens, start);
    lemma_unary_advances(tokens, start);
    lemma_unary_advances(tokens, start + 1);
    lemma_term_advances(tokens, start);
    lemma_term_advances(tokens, start + 1);
}

/// Whether a token is one of the five binary operators.
pub open spec fn binary_operator(token: Token) -> bool {
    token == Token::Add || token == Token::Sub || token == Token::Mul || token == Token::Div
        || token == Token::Exp
}

/// Whether a tree is built the way the parser builds trees from the
/// scanner's tokens: every operator is one, every negation is a minus, every
/// function and constant is in the vocabulary, and every atom is a number,
/// a variable or a constant.
pub open spec fn proper(expression: Expr) -> bool
    decreases expression,
{
    match expression {
        Expr::Binary(operator, left, right) => binary_operator(operator) && proper(*left)
            && proper(*right),
        Expr::Unary(operator, operand) => operator == Token::Sub && proper(*operand),
        Expr::Function(name, argument) => name is FunctionName && functions().contains(
            name->FunctionName_0,
        ) && proper(*argument),
        Expr::Atomic(token) => match token {
            Token::NumLiteral(_) => true,
            Token::Variable(_) => true,
            Token::Constant(name) => constants().contains(name),
            _ => false,
        },
    }
}

/// `parsed`, where it is a tree, is a proper one.
pub open spec fn gives_proper(parsed: Parsed) -> bool {
    parsed is Ok ==> proper(parsed->Ok_0.0)
}

/// An atom of lexical tokens is a proper tree.
pub proof fn lemma_atom_is_proper(tokens: Seq<Token>, start: int)
    requires
        all_lexical(tokens),
    ensures
        gives_proper(atom(tokens, start)),
    decreases tokens.len() - start, 0int,
{
    if 0 <= start < tokens.len() {
        assert(crate::scanner::lexical(tokens[start]));
        if tokens[start] == Token::LeftParen {
            lemma_expression_is_proper(tokens, start + 1);
        }
    }
}

/// A function call of lexical tokens is a proper tree.
pub proof fn lemma_function_is_proper(tokens: Seq<Token>, start: int)
    requires
        all_lexical(tokens),
    ensures
        gives_proper(function(tokens, start)),
    decreases tokens.len() - start, 1int,
{
    if 0 <= start < tokens.len() {
        assert(crate::scanner::lexical(tokens[start]));
        if tokens[start] is FunctionName {
            if expect(tokens, start + 1, Token::LeftParen, Expected::LeftParen) is None {
                lemma_expression_is_proper(tokens, start + 2);
            }
        } else {
            lemma_atom_is_proper(tokens, start);
        }
    }
}

/// A power of lexical tokens is a proper tree.
pub proof fn lemma_power_is_proper(tokens: Seq<Token>, start: int)
    requires
        all_lexical(tokens),
    ensures
        gives_proper(power(tokens, start)),
    decreases tokens.len() - start, 2int,
{
    if 0 <= start < tokens.len() {
        lemma_function_is_proper(tokens, start);
        lemma_function_advances(tokens, start);
        match function(tokens, start) {
            Ok((_, next)) => {
                if next < tokens.len() && tokens[next] == Token::Exp {
                    lemma_power_is_proper(tokens, next + 1);
                }
            },
            Err(_) => {},
        }
    }
}

/// A negation of lexical tokens is a proper tree.
pub proof fn lemma_unary_is_proper(tokens: Seq<Token>, start: int)
    requires
        all_lexical(tokens),
    ensures
        gives_proper(unary(tokens, start)),
    decreases tokens.len() - start, 3int,
{
    if 0 <= start < tokens.len() {
        if tokens[start] == Token::Sub {
            lemma_unary_is_proper(tokens, start + 1);
        } else {
            lemma_power_is_proper(tokens, start);
        }
    }
}

/// Further factors of lexical tokens keep a proper tree proper.
pub proof fn lemma_term_rest_is_proper(tokens: Seq<Token>, left: Expr, next: int)
    requires
        all_lexical(tokens),
        proper(left),
        0 <= next <= tokens.len(),
    ensures
        gives_proper(term_rest(tokens, left, next)),
    decreases tokens.len() - next, 4int,
{
    if next < tokens.len() && (tokens[next] == Token::Mul || tokens[next] == Token::Div) {
        lemma_unary_is_proper(tokens, next + 1);
        lemma_unary_advances(tokens, next + 1);
        match unary(tokens, next + 1) {
            Ok((right, after)) => {
                lemma_term_rest_is_proper(
                    tokens,
                    Expr::Binary(tokens[next], Box::new(left), Box::new(right)),
                    after,
                );
            },
            Err(_) => {},
        }
    }
}

/// A term of lexical tokens is a proper tree.
pub proof fn lemma_term_is_proper(tokens: Seq<Token>, start: int)
    requires
        all_lexical(tokens),
    ensures
        gives_proper(term(tokens, start)),
    decreases tokens.len() - start, 5int,
{
    if 0 <= start < tokens.len() {
        lemma_unary_is_proper(tokens, start);
        lemma_unary_advances(tokens, start);
        match unary(tokens, start) {
            Ok((left, next)) => {
                lemma_term_rest_is_proper(tokens, left, next);
            },
            Err(_) => {},
        }
    }
}

/// Further terms of lexical tokens keep a proper tree proper.
pub proof fn lemma_expression_rest_is_proper(tokens: Seq<Token>, left: Expr, next: int)
    requires
        all_lexical(tokens),
        proper(left),
        0 <= next <= tokens.len(),
    ensures
        gives_proper(expression_rest(tokens, left, next)),
    decreases tokens.len() - next, 6int,
{
    if next < tokens.len() && (tokens[next] == Token::Add || tokens[next] == Token::Sub) {
        lemma_term_is_proper(tokens, next + 1);
        lemma_term_advances(tokens, next + 1);
        match term(tokens, next + 1) {
            Ok((right, after)) => {
                lemma_expression_rest_is_proper(
                    tokens,
                    Expr::Binary(tokens[next], Box::new(left), Box::new(right)),
                    after,
                );
            },
            Err(_) => {},
        }
    }
}

/// An expression of lexical tokens is a proper tree.
pub proof fn lemma_expression_is_proper(tokens: Seq<Token>, start: int)
    requires
        all_lexical(tokens),
    ensures
        gives_proper(expression(tokens, start)),
    decreases tokens.len() - start, 7int,
{
    if 0 <= start < tokens.len() {
        lemma_term_is_proper(tokens, start);
        lemma_term_advances(tokens, start);
        match term(tokens, start) {
            Ok((left, next)) => {
                lemma_expression_rest_is_proper(tokens, left, next);
            },
            Err(_) => {},
        }
    }
}

/// The parser builds proper trees: whatever `parse_tokens` makes of the
/// scanner's tokens holds no operator, function or constant that the
/// evaluator does not know.
pub proof fn lemma_parse_is_proper(tokens: Seq<Token>)
    requires
        all_lexical(tokens),
    ensures
        parse_tokens(tokens) is Ok ==> proper(parse_tokens(tokens)->Ok_0),
{
    lemma_expression_is_proper(tokens, 0);
}

/// What a parsing function returned, as mathematics.
pub open spec fn parsed_view(r: Result<(ASTNodeType, usize), ParseError>) -> Parsed {
    match r {
        Ok((node, next)) => Ok((node@, next as int)),
        Err(e) => Err(e@),
    }
}

/// A parsing function's result stands for `parsed` and, on success, ends
/// behind `start` and within the tokens.
pub open spec fn parses_as(
    r: Result<(ASTNodeType, usize), ParseError>,
    parsed: Parsed,
    start: usize,
    len: usize,
) -> bool {
    &&& parsed_view(r) == parsed
    &&& r is Ok ==> start < r->Ok_0.1 <= len
}

/// The token that `expected` names, for the two that name one.
pub open spec fn expected_token(expected: Expected) -> Token {
    if expected == Expected::LeftParen {
        Token::LeftParen
    } else {
        Token::RightParen
    }
}

/// Checks that the parenthesis that `expected` names stands at `idx`.
fn expect_token(tokens: &Vec<TokenType>, idx: usize, expected: Expected) -> (r: Result<
    (),
    ParseError,
>)
    requires
        expected != Expected::Expression,
    ensures
        match r {
            Ok(_) => expect(
                tokens_view(tokens@),
                idx as int,
                expected_token(expected),
                expected,
            ) is None,
            Err(e) => expect(tokens_view(tokens@), idx as int, expected_token(expected), expected)
                == Some(e@),
        },
{
    if idx >= tokens.len() {
        return Err(ParseError::UnexpectedEndOfInput);
    }
    let found = match (&tokens[idx], expected) {
        (TokenType::LeftParen, Expected::LeftParen) => true,
        (TokenType::RightParen, Expected::RightParen) => true,
        _ => false,
    };
    if found {
        Ok(())
    } else {
        Err(ParseError::ExpectedToken(expected, tokens[idx].duplicate()))
    }
}

/// Tells whether the token is `+` or `-`.
fn is_additive(token: &TokenType) -> (r: bool)
    ensures
        r == (token@ == Token::Add || token@ == Token::Sub),
{
    match token {
        TokenType::Add | TokenType::Sub => true,
        _ => false,
    }
}

/// Tells whether the token is `*` or `/`.
fn is_multiplicative(token: &TokenType) -> (r: bool)
    ensures
        r == (token@ == Token::Mul || token@ == Token::Div),
{
    match token {
        TokenType::Mul | TokenType::Div => true,
        _ => false,
    }
}

/// Parses an expression that starts at `start`.
fn parse_expression(tokens: &Vec<TokenType>, start: usize) -> (r: Result<
    (ASTNodeType, usize),
    ParseError,
>)
    ensures
        parses_as(r, expression(tokens_view(tokens@), start as int), start, tokens.len()),
    decreases tokens.len() - start, 7int,
{
    if start >= tokens.len() {
        return Err(ParseError::UnexpectedEndOfInput);
    }
    let (mut left, mut next) = match parse_term(tokens, start) {
        Err(e) => {
            return Err(e);
        },
        Ok(parsed) => parsed,
    };
    while next < tokens.len() && is_additive(&tokens[next])
        invariant
            start < next <= tokens.len(),
            expression(tokens_view(tokens@), start as int) == expression_rest(
                tokens_view(tokens@),
                left@,
                next as int,
            ),
        decreases tokens.len() - next,
    {
        let operator = tokens[next].duplicate();
        match parse_term(tokens, next + 1) {
            Err(e) => {
                return Err(e);
            },
            Ok((right, after)) => {
                left = ASTNodeType::BinaryExpression(operator, Box::new(left), Box::new(right));
                next = after;
            },
        }
    }
    Ok((left, next))
}

/// Parses a term that starts at `start`.
fn parse_term(tokens: &Vec<TokenType>, start: usize) -> (r: Result<(ASTNodeType, usize), ParseError>)
    ensures
        parses_as(r, term(tokens_view(tokens@), start as int), start, tokens.len()),
    decreases tokens.len() - start, 5int,
{
    if start >= tokens.len() {
        return Err(ParseError::UnexpectedEndOfInput);
    }
    let (mut left, mut next) = match parse_unary(tokens, start) {
        Err(e) => {
            return Err(e);
        },
        Ok(parsed) => parsed,
    };
    while next < tokens.len() && is_multiplicative(&tokens[next])
        invariant
            start < next <= tokens.len(),
            term(tokens_view(tokens@), start as int) == term_rest(
                tokens_view(tokens@),
                left@,
                next as int,
            ),
        decreases tokens.len() - next,
    {
        let operator = tokens[next].duplicate();
        match parse_unary(tokens, next + 1) {
            Err(e) => {
                return Err(e);
            },
            Ok((right, after)) => {
                left = ASTNodeType::BinaryExpression(operator, Box::new(left), Box::new(right));
                next = after;
            },
        }
    }
    Ok((left, next))
}

/// Parses a negation, or a power, that starts at `start`.
fn parse_unary(tokens: &Vec<TokenType>, start: usize) -> (r: Result<(ASTNodeType, usize), ParseError>)
    ensures
        parses_as(r, unary(tokens_view(tokens@), start as int), start, tokens.len()),
    decreases tokens.len() - start, 3int,
{
    if start >= tokens.len() {
        return Err(ParseError::UnexpectedEndOfInput);
    }
    if let TokenType::Sub = &tokens[start] {
        let operator = tokens[start].duplicate();
        return match parse_unary(tokens, start + 1) {
            Err(e) => Err(e),
            Ok((expr, next)) => Ok((ASTNodeType::UnaryExpression(operator, Box::new(expr)), next)),
        };
    }
    parse_power(tokens, start)
}

/// Parses a power that starts at `start`.
fn parse_power(tokens: &Vec<TokenType>, start: usize) -> (r: Result<(ASTNodeType, usize), ParseError>)
    ensures
        parses_as(r, power(tokens_view(tokens@), start as int), start, tokens.len()),
    decreases tokens.len() - start, 2int,
{
    if start >= tokens.len() {
        return Err(ParseError::UnexpectedEndOfInput);
    }
    let (base, next) = match parse_function(tokens, start) {
        Err(e) => {
            return Err(e);
        },
        Ok(parsed) => parsed,
    };
    if next < tokens.len() {
        if let TokenType::Exp = &tokens[next] {
            let operator = tokens[next].duplicate();
            return match parse_power(tokens, next + 1) {
                Err(e) => Err(e),
                Ok((power, after)) => Ok(
                    (
                        ASTNodeType::BinaryExpression(operator, Box::new(base), Box::new(power)),
                        after,
                    ),
                ),
            };
        }
    }
    Ok((base, next))
}

/// Parses a function call, or an atom, that starts at `start`.
fn parse_function(tokens: &Vec<TokenType>, start: usize) -> (r: Result<
    (ASTNodeType, usize),
    ParseError,
>)
    ensures
        parses_as(r, function(tokens_view(tokens@), start as int), start, tokens.len()),
    decreases tokens.len() - start, 1int,
{
    if start >= tokens.len() {
        return Err(ParseError::UnexpectedEndOfInput);
    }
    if let TokenType::FunctionName(_) = &tokens[start] {
        let name = tokens[start].duplicate();
        if let Err(e) = expect_token(tokens, start + 1, Expected::LeftParen) {
            return Err(e);
        }
        let (expression, next) = match parse_expression(tokens, start + 2) {
            Err(e) => {
                return Err(e);
            },
            Ok(parsed) => parsed,
        };
        if let Err(e) = expect_token(tokens, next, Expected::RightParen) {
            return Err(e);
        }
        return Ok((ASTNodeType::FunctionExpression(name, Box::new(expression)), next + 1));
    }
    parse_atom(tokens, start)
}

/// Parses an atom that starts at `start`.
fn parse_atom(tokens: &Vec<TokenType>, start: usize) -> (r: Result<(ASTNodeType, usize), ParseError>)
    ensures
        parses_as(r, atom(tokens_view(tokens@), start as int), start, tokens.len()),
    decreases tokens.len() - start, 0int,
{
    if start >= tokens.len() {
        return Err(ParseError::UnexpectedEndOfInput);
    }
    match &tokens[start] {
        TokenType::NumLiteral(_) | TokenType::Constant(_) | TokenType::Variable(_) => {
            Ok((ASTNodeType::AtomicExpression(tokens[start].duplicate()), start + 1))
        },
        TokenType::LeftParen => {
            let (expression, next) = match parse_expression(tokens, start + 1) {
                Err(e) => {
                    return Err(e);
                },
                Ok(parsed) => parsed,
            };
            if let Err(e) = expect_token(tokens, next, Expected::RightParen) {
                return Err(e);
            }
            Ok((expression, next + 1))
        },
        other => Err(ParseError::ExpectedToken(Expected::Expression, other.duplicate())),
    }
}

/// Parses a whole sequence of tokens into its syntax tree.
///
/// The result is `parse_tokens` of the tokens: the tree of the expression
/// that starts the sequence, `TrailingTokens` where that expression ends
/// before the tokens do, and otherwise the error of the production that
/// failed.
pub fn parse(tokens: &Vec<TokenType>) -> (r: Result<ASTNodeType, ParseError>)
    ensures
        match r {
            Ok(tree) => parse_tokens(tokens_view(tokens@)) == Ok::<Expr, ParseFailure>(tree@),
            Err(e) => parse_tokens(tokens_view(tokens@)) == Err::<Expr, ParseFailure>(e@),
        },
{
    match parse_expression(tokens, 0) {
        Err(e) => Err(e),
        Ok((expr, stop)) => {
            if stop != tokens.len() {
                return Err(ParseError::TrailingTokens);
            }
            Ok(expr)
        },
    }
}

} // verus!
