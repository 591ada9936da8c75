use blox::ast::Expression;
use blox::lexer::TokenKind;
use blox::parser::{ParseError, Parser, Precedence};

fn num(text: &str) -> Box<Expression> {
    Box::new(Expression::Number(text.to_string()))
}

fn bin(l: Box<Expression>, op: TokenKind, r: Box<Expression>) -> Box<Expression> {
    Box::new(Expression::Binary(l, op, r))
}

fn parse(src: &str) -> Result<Expression, ParseError> {
    Parser::new(src).parse()
}

#[test]
fn multiplication_binds_tighter_than_addition() {
    let e = parse("1 + 2 * 3").unwrap();
    assert_eq!(e, *bin(num("1"), TokenKind::Plus, bin(num("2"), TokenKind::Star, num("3"))));
}

#[test]
fn subtraction_groups_to_the_left() {
    let e = parse("8 - 4 - 2").unwrap();
    assert_eq!(e, *bin(bin(num("8"), TokenKind::Minus, num("4")), TokenKind::Minus, num("2")));
}

#[test]
fn grouping_is_kept() {
    let e = parse("(1 + 2) * 3").unwrap();
    let inner = Box::new(Expression::Grouping(bin(num("1"), TokenKind::Plus, num("2"))));
    assert_eq!(e, *bin(inner, TokenKind::Star, num("3")));
}

#[test]
fn unary_minus_binds_tighter_than_multiplication() {
    let e = parse("-2 * 3").unwrap();
    let neg = Box::new(Expression::Unary(TokenKind::Minus, num("2")));
    assert_eq!(e, *bin(neg, TokenKind::Star, num("3")));
}

#[test]
fn literals_true_false_nil() {
    assert_eq!(parse("true").unwrap(), Expression::Bool(true));
    assert_eq!(parse("false").unwrap(), Expression::Bool(false));
    assert_eq!(parse("nil").unwrap(), Expression::Nil);
    assert_eq!(
        parse("!true").unwrap(),
        Expression::Unary(TokenKind::Bang, Box::new(Expression::Bool(true)))
    );
}

#[test]
fn unterminated_grouping_is_a_mismatch() {
    assert_eq!(parse("(1 + 2"), Err(ParseError::Mismatch));
}

#[test]
fn leading_infix_operator_is_rejected() {
    assert_eq!(parse("* 2"), Err(ParseError::UnexpectedPrefix));
    assert_eq!(parse(""), Err(ParseError::UnexpectedPrefix));
}

#[test]
fn non_arithmetic_infix_is_rejected() {
    assert_eq!(parse("1 == 2"), Err(ParseError::UnexpectedInfix));
}

#[test]
fn scanner_errors_fail_the_parse() {
    let mut p = Parser::new("1 @ + 2");
    assert_eq!(p.parse(), Err(ParseError::InvalidToken));
    assert_eq!(p.errors().len(), 1);
    assert_eq!(p.errors()[0].lexeme, "Unexpected character @");
}

#[test]
fn trailing_semicolon_is_accepted() {
    assert_eq!(
        parse("1 + 2;").unwrap(),
        *bin(num("1"), TokenKind::Plus, num("2"))
    );
}

#[test]
fn precedence_levels() {
    assert_eq!(Precedence::Lowest.order(), 0);
    assert_eq!(Precedence::Primary.order(), 10);
    assert_eq!(Precedence::Term.next(), Precedence::Factor);
    assert_eq!(Precedence::Primary.next(), Precedence::Primary);
    assert_eq!(Precedence::from_order(8), Precedence::Unary);
    assert_eq!(Precedence::of_kind(TokenKind::Star), Precedence::Factor);
    assert_eq!(Precedence::of_kind(TokenKind::Rpar), Precedence::Lowest);
}

#[test]
fn leftover_tokens_are_rejected() {
    assert_eq!(parse("1 2"), Err(ParseError::TrailingToken));
    assert_eq!(parse("1 )"), Err(ParseError::TrailingToken));
    assert_eq!(parse("(1) (2)"), Err(ParseError::TrailingToken));
    assert_eq!(parse("1;;"), Err(ParseError::TrailingToken));
}

#[test]
fn scanner_error_after_the_expression_fails_the_parse() {
    assert_eq!(parse("1 2 @"), Err(ParseError::TrailingToken));
    assert_eq!(parse("1 + 2 @"), Err(ParseError::InvalidToken));
}

#[test]
fn not_equal_is_an_equality_operator() {
    assert_eq!(Precedence::of_kind(TokenKind::NotBang), Precedence::Equality);
    assert_eq!(parse("1 != 2"), Err(ParseError::UnexpectedInfix));
}

#[test]
fn unclosed_parenthesis_is_a_mismatch_wherever_it_stops() {
    assert_eq!(parse("(1 + 2;"), Err(ParseError::Mismatch));
    assert_eq!(parse("((1)"), Err(ParseError::Mismatch));
    assert_eq!(parse("(1 2)"), Err(ParseError::Mismatch));
}
