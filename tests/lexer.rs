use camel::lexer::Lexer;
use camel::token::{Token, TokenKind};

fn first(input: &str) -> Option<Token<'_>> {
    Lexer::new(input).next_token()
}

fn all(input: &str) -> Vec<Token<'_>> {
    let mut lexer = Lexer::new(input);
    let mut tokens = Vec::new();
    while let Some(token) = lexer.next_token() {
        tokens.push(token);
    }
    tokens
}

#[test]
fn next_token_single_characters() {
    assert_eq!(first("("), Some(Token { kind: TokenKind::LeftParen, text: "(" }));
    assert_eq!(first(")"), Some(Token { kind: TokenKind::RightParen, text: ")" }));
    assert_eq!(first("λ"), Some(Token { kind: TokenKind::Lambda, text: "λ" }));
    assert_eq!(first("\\"), Some(Token { kind: TokenKind::Lambda, text: "\\" }));
    assert_eq!(first("."), Some(Token { kind: TokenKind::Dot, text: "." }));
}

#[test]
fn next_token_identifiers() {
    assert_eq!(first("x"), Some(Token { kind: TokenKind::LowercaseId, text: "x" }));
    assert_eq!(first("xyz"), Some(Token { kind: TokenKind::LowercaseId, text: "xyz" }));
    assert_eq!(first("aB3 c"), Some(Token { kind: TokenKind::LowercaseId, text: "aB3" }));
}

#[test]
fn next_token_skips_whitespace() {
    assert_eq!(first("  ("), Some(Token { kind: TokenKind::LeftParen, text: "(" }));
    assert_eq!(first("\t\n\u{3000}x"), Some(Token { kind: TokenKind::LowercaseId, text: "x" }));
}

#[test]
fn next_token_empty_input() {
    assert_eq!(first(""), None);
    assert_eq!(first("   "), None);
}

#[test]
fn next_token_unknown() {
    assert_eq!(first("Abc"), Some(Token { kind: TokenKind::Unknown, text: "A" }));
    assert_eq!(first("3"), Some(Token { kind: TokenKind::Unknown, text: "3" }));
}

#[test]
fn next_token_stays_at_end() {
    let mut lexer = Lexer::new("x");
    assert!(lexer.next_token().is_some());
    assert_eq!(lexer.next_token(), None);
    assert_eq!(lexer.next_token(), None);
}

#[test]
fn tokenize_all_parenthesized() {
    assert_eq!(
        all("(λx.x)"),
        vec![
            Token { kind: TokenKind::LeftParen, text: "(" },
            Token { kind: TokenKind::Lambda, text: "λ" },
            Token { kind: TokenKind::LowercaseId, text: "x" },
            Token { kind: TokenKind::Dot, text: "." },
            Token { kind: TokenKind::LowercaseId, text: "x" },
            Token { kind: TokenKind::RightParen, text: ")" },
        ]
    );
}

#[test]
fn tokenize_all_backslash() {
    assert_eq!(
        all("\\x.x"),
        vec![
            Token { kind: TokenKind::Lambda, text: "\\" },
            Token { kind: TokenKind::LowercaseId, text: "x" },
            Token { kind: TokenKind::Dot, text: "." },
            Token { kind: TokenKind::LowercaseId, text: "x" },
        ]
    );
}

#[test]
fn tokenize_all_mixed_case_identifier() {
    assert_eq!(
        all("aBC Bc"),
        vec![
            Token { kind: TokenKind::LowercaseId, text: "aBC" },
            Token { kind: TokenKind::Unknown, text: "B" },
            Token { kind: TokenKind::LowercaseId, text: "c" },
        ]
    );
}

#[test]
fn identifier_is_one_token() {
    assert_eq!(all("xyz"), vec![Token { kind: TokenKind::LowercaseId, text: "xyz" }]);
    assert_eq!(all(""), vec![]);
}
