use vstd::prelude::*;

verus! {

/// A token: its kind and the slice of the source it was read from.
#[derive(Debug, Clone, Copy, PartialEq)]
pub struct Token<'inp> {
    pub kind: TokenKind,
    pub text: &'inp str,
}

/// The kinds of token of the surface language.
#[derive(Debug, Clone, Copy, PartialEq, Eq, Structural)]
pub enum TokenKind {
    LeftParen,
    RightParen,
    Lambda,
    Dot,
    LowercaseId,
    Unknown,
}

/// An owned copy of an offending token, carried by a parse error.
#[derive(Debug, PartialEq)]
pub struct TokenError {
    pub kind: TokenKind,
    pub text: String,
}

impl<'inp> View for Token<'inp> {
    type V = (TokenKind, Seq<char>);

    open spec fn view(&self) -> (TokenKind, Seq<char>) {
        (self.kind, self.text@)
    }
}

impl View for TokenError {
    type V = (TokenKind, Seq<char>);

    open spec fn view(&self) -> (TokenKind, Seq<char>) {
        (self.kind, self.text@)
    }
}

impl TokenError {
    /// Copies the kind and text of a token.
    pub fn from_token(token: &Token) -> (r: TokenError)
        ensures
            r@ == token@,
    {
        TokenError { kind: token.kind, text: String::from_str(token.text) }
    }
}

} // verus!
