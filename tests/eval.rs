use camel::ast::{Abstraction, Identifier, Node};
use camel::eval::eval;
use camel::parser::Parser;
use std::rc::Rc;

fn eval_str(input: &str) -> String {
    let mut parser = Parser::new(input);
    let ast = parser.parse_term().unwrap();
    eval(Rc::new(ast)).to_string()
}

#[test]
fn test_evaluation() {
    let input = "(λx.x)(λy.y)";
    let mut parser = Parser::new(input);
    let ast = parser.parse_term().unwrap();
    let result = eval(Rc::new(ast));
    let expected = Rc::new(Node::Abstraction(Box::new(Abstraction {
        param: "y".to_string(),
        body: Rc::new(Node::Identifier(Identifier { name: "y".to_string() })),
    })));
    assert_eq!(result, expected);
}

#[test]
fn test_nested_evaluation() {
    let input = "(λx.(λy.y))(λz.z)";
    let mut parser = Parser::new(input);
    let ast = parser.parse_term().unwrap();
    let result = eval(Rc::new(ast));
    let expected = Rc::new(Node::Abstraction(Box::new(Abstraction {
        param: "y".to_string(),
        body: Rc::new(Node::Identifier(Identifier { name: "y".to_string() })),
    })));
    assert_eq!(result, expected);
}

#[test]
fn eval_identifier_is_unchanged() {
    assert_eq!(eval_str("x"), "x");
}

#[test]
fn eval_abstraction_is_unchanged() {
    assert_eq!(eval_str("λx. (λy. y) x"), "(λx. (λy. y) x)");
}

#[test]
fn eval_irreducible_application_is_unchanged() {
    let mut parser = Parser::new("f (λy. y) z");
    let ast = Rc::new(parser.parse_term().unwrap());
    let mut again = Parser::new("f (λy. y) z");
    let expected = Rc::new(again.parse_term().unwrap());
    assert_eq!(eval(ast), expected);
}

#[test]
fn eval_substitutes_the_bound_name() {
    assert_eq!(eval_str("(λy. y) z"), "z");
    assert_eq!(eval_str("(λy. a y b) z"), "a z b");
}

#[test]
fn eval_stops_at_a_shadowing_binder() {
    assert_eq!(eval_str("(λx. λx. x) a"), "(λx. x)");
}

#[test]
fn eval_renames_a_capturing_binder() {
    assert_eq!(eval_str("(λx. λy. x) y"), "(λy0. y)");
    assert_eq!(eval_str("(λx. λy. x y) y"), "(λy0. y y0)");
    assert_eq!(eval_str("(λx. λy. x) yy"), "(λy. yy)");
}

#[test]
fn eval_renames_past_longer_names() {
    assert_eq!(eval_str("(λx. λy. x y00) (y q12)"), "(λy000. y q12 y00)");
}

#[test]
fn eval_reduces_arguments_first() {
    assert_eq!(eval_str("(λx. x) ((λy. y) z)"), "z");
}
