use camel::ast::{Abstraction, Application, Identifier, Node};
use camel::parser::{Parser, ParserError};
use camel::token::{TokenError, TokenKind};
use std::rc::Rc;

fn id(name: &str) -> Rc<Node> {
    Rc::new(Node::Identifier(Identifier { name: name.to_string() }))
}

fn lam(param: &str, body: Rc<Node>) -> Rc<Node> {
    Rc::new(Node::Abstraction(Box::new(Abstraction { param: param.to_string(), body })))
}

fn ap(lhs: Rc<Node>, rhs: Rc<Node>) -> Rc<Node> {
    Rc::new(Node::Application(Box::new(Application { lhs, rhs })))
}

fn parse(input: &str) -> Result<Node, ParserError> {
    Parser::new(input).parse_term()
}

fn unexpected(kind: TokenKind, text: &str) -> Result<Node, ParserError> {
    Err(ParserError::UnexpectedToken(TokenError { kind, text: text.to_string() }))
}

#[test]
fn simple_ast() {
    let ast = ap(lam("x", id("x")), lam("y", id("y")));
    assert_eq!(ast.to_string(), "(λx. x) (λy. y)");
}

#[test]
fn identity_pair_parses_renders_and_reduces() {
    let ast = parse("(λx.x)(λy.y)").unwrap();
    assert_eq!(ast, *ap(lam("x", id("x")), lam("y", id("y"))));
    assert_eq!(ast.to_string(), "(λx. x) (λy. y)");
    let result = camel::eval::eval(Rc::new(ast));
    assert_eq!(result, lam("y", id("y")));
}

#[test]
fn single_application() {
    let ast = parse("(λx.x)(λy.(λa.a))").unwrap();
    assert_eq!(ast, *ap(lam("x", id("x")), lam("y", lam("a", id("a")))));
    assert_eq!(ast.to_string(), "(λx. x) (λy. (λa. a))");
}

#[test]
fn double_application() {
    let ast = parse("(λx.x)(λy.y)(λabc.abc)").unwrap();
    assert_eq!(
        ast,
        *ap(ap(lam("x", id("x")), lam("y", id("y"))), lam("abc", id("abc")))
    );
    assert_eq!(ast.to_string(), "(λx. x) (λy. y) (λabc. abc)");
}

#[test]
fn application_is_left_associative() {
    assert_eq!(parse("a b c").unwrap(), *ap(ap(id("a"), id("b")), id("c")));
}

#[test]
fn abstraction_extends_right() {
    assert_eq!(parse("λx. λy. x").unwrap(), *lam("x", lam("y", id("x"))));
    assert_eq!(parse("λx. λy. x y").unwrap(), *lam("x", lam("y", ap(id("x"), id("y")))));
}

#[test]
fn parse_stops_after_one_term() {
    let mut parser = Parser::new("x) y");
    assert_eq!(parser.parse_term().unwrap(), *id("x"));
}

#[test]
fn render_then_parse_round_trip() {
    for input in ["(λx.x)(λy.y)", "λx. λy. x y", "a b c", "(λf. f (λz. z)) g", "\\x.x"] {
        let first = parse(input).unwrap();
        let text = first.to_string();
        let second = parse(&text).unwrap();
        assert_eq!(first, second);
    }
}

#[test]
fn unexpected_token_digit_body() {
    assert_eq!(parse("(λx.1)"), unexpected(TokenKind::Unknown, "1"));
}

#[test]
fn unexpected_token_uppercase_param() {
    assert_eq!(parse("(λA.a)"), unexpected(TokenKind::Unknown, "A"));
    assert_eq!(parse("(λAbc.Abc)"), unexpected(TokenKind::Unknown, "A"));
}

#[test]
fn unexpected_token_digit_head() {
    assert_eq!(parse("(3 λx.x)"), unexpected(TokenKind::Unknown, "3"));
}

#[test]
fn unexpected_token_right_paren() {
    assert_eq!(parse(")λx.x)"), unexpected(TokenKind::RightParen, ")"));
}

#[test]
fn unexpected_token_dot() {
    assert_eq!(parse("(.x.x)"), unexpected(TokenKind::Dot, "."));
    assert_eq!(parse("(x .)"), unexpected(TokenKind::Dot, "."));
}

#[test]
fn unexpected_token_mixed_case_then_upper() {
    assert_eq!(parse("(λaBC.aBC)").unwrap(), *lam("aBC", id("aBC")));
    assert_eq!(parse("(λa.Bc)"), unexpected(TokenKind::Unknown, "B"));
}

#[test]
fn unexpected_end_of_input_error() {
    for input in ["", "(", "(λ", "(λx", "(λx.", "(λx.x", "(λx.x)("] {
        assert_eq!(parse(input), Err(ParserError::UnexpectedEndOfInput), "{}", input);
    }
}
