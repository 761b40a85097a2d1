use crate::ast::{Abstraction, Application, Identifier, Node, Term};
use crate::lexer::{tokens, Lexer};
use crate::token::{Token, TokenError, TokenKind};
use std::rc::Rc;
use vstd::prelude::*;

verus! {

/// The two ways a parse can fail.
#[derive(Debug, PartialEq)]
pub enum ParserError {
    UnexpectedToken(TokenError),
    UnexpectedEndOfInput,
}

/// The value of a parse error: the offending token's kind and text, or the end
/// of the input.
pub enum SyntaxError {
    Unexpected(TokenKind, Seq<char>),
    EndOfInput,
}

impl View for ParserError {
    type V = SyntaxError;

    open spec fn view(&self) -> SyntaxError {
        match self {
            ParserError::UnexpectedToken(t) => SyntaxError::Unexpected(t.kind, t.text@),
            ParserError::UnexpectedEndOfInput => SyntaxError::EndOfInput,
        }
    }
}

pub type Toks = Seq<(TokenKind, Seq<char>)>;

/// A parsed term and the index of the first token after it, or an error.
pub type Parsed = Result<(Term, int), SyntaxError>;

pub open spec fn kind_at(ts: Toks, i: int) -> Option<TokenKind> {
    if 0 <= i < ts.len() {
        Some(ts[i].0)
    } else {
        None
    }
}

/// The error reported where token `i` does not fit the grammar.
pub open spec fn error_at(ts: Toks, i: int) -> SyntaxError {
    if 0 <= i < ts.len() {
        SyntaxError::Unexpected(ts[i].0, ts[i].1)
    } else {
        SyntaxError::EndOfInput
    }
}

/// term ::= LAMBDA LCID DOT term | application
pub open spec fn term_at(ts: Toks, i: int) -> Parsed
    decreases ts.len() - i, 4int,
{
    if kind_at(ts, i) == Some(TokenKind::Lambda) {
        abstraction_at(ts, i)
    } else {
        application_at(ts, i)
    }
}

/// The abstraction whose lambda is token `i`.
pub open spec fn abstraction_at(ts: Toks, i: int) -> Parsed
    decreases ts.len() - i, 3int,
{
    if kind_at(ts, i + 1) != Some(TokenKind::LowercaseId) {
        Err(error_at(ts, i + 1))
    } else if kind_at(ts, i + 2) != Some(TokenKind::Dot) {
        Err(error_at(ts, i + 2))
    } else if 0 <= i {
        match term_at(ts, i + 3) {
            Ok((b, j)) => Ok((Term::Lam(ts[i + 1].1, Box::new(b)), j)),
            Err(e) => Err(e),
        }
    } else {
        Err(SyntaxError::EndOfInput)
    }
}

/// application ::= atom application'
pub open spec fn application_at(ts: Toks, i: int) -> Parsed
    decreases ts.len() - i, 3int,
{
    match atom_at(ts, i) {
        Ok((t, j)) => if i < j <= ts.len() {
            application_rest(ts, j, t)
        } else {
            Ok((t, j))
        },
        Err(e) => Err(e),
    }
}

/// application' ::= atom application' | ε, folded onto `acc` from the left.
pub open spec fn application_rest(ts: Toks, i: int, acc: Term) -> Parsed
    decreases ts.len() - i, 2int,
{
    if kind_at(ts, i) == Some(TokenKind::LowercaseId) || kind_at(ts, i) == Some(
        TokenKind::LeftParen,
    ) {
        match atom_at(ts, i) {
            Ok((r, j)) => if i < j <= ts.len() {
                application_rest(ts, j, Term::App(Box::new(acc), Box::new(r)))
            } else {
                Ok((Term::App(Box::new(acc), Box::new(r)), j))
            },
            Err(e) => Err(e),
        }
    } else {
        Ok((acc, i))
    }
}

/// atom ::= LPAREN term RPAREN | LCID
pub open spec fn atom_at(ts: Toks, i: int) -> Parsed
    decreases ts.len() - i, 1int,
{
    match kind_at(ts, i) {
        Some(TokenKind::LeftParen) => if 0 <= i {
            match term_at(ts, i + 1) {
                Ok((t, j)) => if kind_at(ts, j) == Some(TokenKind::RightParen) {
                    Ok((t, j + 1))
                } else {
                    Err(error_at(ts, j))
                },
                Err(e) => Err(e),
            }
        } else {
            Err(SyntaxError::EndOfInput)
        },
        Some(TokenKind::LowercaseId) => Ok((Term::Var(ts[i].1), i + 1)),
        Some(_) => Err(error_at(ts, i)),
        None => Err(SyntaxError::EndOfInput),
    }
}

/// What parsing a whole input gives: a term and where it ends, or an error.
pub open spec fn parse(s: Seq<char>) -> Parsed {
    term_at(tokens(s), 0)
}

/// Each parsing function that succeeds from token `i` ends after it, and
/// never past the last token.
pub proof fn lemma_progress(ts: Toks, i: int)
    requires
        0 <= i,
    ensures
        term_at(ts, i) matches Ok((_, j)) ==> i < j <= ts.len(),
        abstraction_at(ts, i) matches Ok((_, j)) ==> i < j <= ts.len(),
        application_at(ts, i) matches Ok((_, j)) ==> i < j <= ts.len(),
        atom_at(ts, i) matches Ok((_, j)) ==> i < j <= ts.len(),
        forall|acc: Term| #[trigger]
            application_rest(ts, i, acc) matches Ok((_, j)) ==> i <= j && (i <= ts.len()
                ==> j <= ts.len()),
    decreases ts.len() - i,
{
    if i < ts.len() {
        lemma_progress(ts, i + 1);
    }
    if i + 3 <= ts.len() {
        lemma_progress(ts, i + 3);
    }
    assert forall|acc: Term| #[trigger]
        application_rest(ts, i, acc) matches Ok((_, j)) ==> i <= j && (i <= ts.len() ==> j
            <= ts.len()) by {
        if kind_at(ts, i) == Some(TokenKind::LowercaseId) || kind_at(ts, i) == Some(
            TokenKind::LeftParen,
        ) {
            if let Ok((r, j)) = atom_at(ts, i) {
                if i < j <= ts.len() {
                    lemma_progress(ts, j);
                    assert(application_rest(ts, j, Term::App(Box::new(acc), Box::new(r))) matches Ok((_, k)) ==> j <= k <= ts.len());
                }
            }
        }
    }
    if let Ok((t, j)) = atom_at(ts, i) {
        if i < j <= ts.len() {
            lemma_progress(ts, j);
            assert(application_rest(ts, j, t) matches Ok((_, k)) ==> j <= k <= ts.len());
        }
    }
}

pub open spec fn ident(x: Seq<char>) -> (TokenKind, Seq<char>) {
    (TokenKind::LowercaseId, x)
}

pub open spec fn var(x: Seq<char>) -> Term {
    Term::Var(x)
}

pub open spec fn app(l: Term, r: Term) -> Term {
    Term::App(Box::new(l), Box::new(r))
}

/// Application associates to the left: three identifiers in a row parse as
/// the first applied to the second, all applied to the third.
pub proof fn lemma_application_left_assoc(a: Seq<char>, b: Seq<char>, c: Seq<char>)
    ensures
        term_at(seq![ident(a), ident(b), ident(c)], 0) == Ok::<(Term, int), SyntaxError>(
            (app(app(var(a), var(b)), var(c)), 3),
        ),
{
    let ts = seq![ident(a), ident(b), ident(c)];
    assert(atom_at(ts, 0) == Ok::<(Term, int), SyntaxError>((var(a), 1)));
    assert(atom_at(ts, 1) == Ok::<(Term, int), SyntaxError>((var(b), 2)));
    assert(atom_at(ts, 2) == Ok::<(Term, int), SyntaxError>((var(c), 3)));
    assert(application_rest(ts, 3, app(app(var(a), var(b)), var(c))) == Ok::<
        (Term, int),
        SyntaxError,
    >((app(app(var(a), var(b)), var(c)), 3)));
    assert(application_rest(ts, 2, app(var(a), var(b))) == Ok::<(Term, int), SyntaxError>(
        (app(app(var(a), var(b)), var(c)), 3),
    ));
    assert(application_rest(ts, 1, var(a)) == Ok::<(Term, int), SyntaxError>(
        (app(app(var(a), var(b)), var(c)), 3),
    ));
}

/// The body of an abstraction extends as far right as it can: `λx. λy. z`
/// (with any spelling of the lambdas and any names) is one abstraction whose
/// body is the other, and the parse takes in every token.
pub proof fn lemma_abstraction_extends_right(
    l1: Seq<char>,
    x: Seq<char>,
    d1: Seq<char>,
    l2: Seq<char>,
    y: Seq<char>,
    d2: Seq<char>,
    z: Seq<char>,
)
    ensures
        term_at(
            seq![
                (TokenKind::Lambda, l1),
                ident(x),
                (TokenKind::Dot, d1),
                (TokenKind::Lambda, l2),
                ident(y),
                (TokenKind::Dot, d2),
                ident(z),
            ],
            0,
        ) == Ok::<(Term, int), SyntaxError>(
            (Term::Lam(x, Box::new(Term::Lam(y, Box::new(var(z))))), 7),
        ),
{
    let ts = seq![
        (TokenKind::Lambda, l1),
        ident(x),
        (TokenKind::Dot, d1),
        (TokenKind::Lambda, l2),
        ident(y),
        (TokenKind::Dot, d2),
        ident(z),
    ];
    assert(atom_at(ts, 6) == Ok::<(Term, int), SyntaxError>((var(z), 7)));
    assert(application_rest(ts, 7, var(z)) == Ok::<(Term, int), SyntaxError>((var(z), 7)));
    assert(term_at(ts, 6) == Ok::<(Term, int), SyntaxError>((var(z), 7)));
    assert(term_at(ts, 3) == Ok::<(Term, int), SyntaxError>(
        (Term::Lam(y, Box::new(var(z))), 7),
    ));
}

/// A recursive-descent parser with one token of lookahead.
pub struct Parser<'inp> {
    lexer: Lexer<'inp>,
    current_token: Option<Token<'inp>>,
}

impl<'inp> Parser<'inp> {
    /// The tokens of the whole input.
    pub closed spec fn tokens(&self) -> Toks {
        tokens(self.lexer.input())
    }

    /// The tokens not consumed yet, the lookahead first.
    pub closed spec fn rest(&self) -> Toks {
        match self.current_token {
            Some(t) => seq![t@] + self.lexer.remaining(),
            None => Seq::empty(),
        }
    }

    /// Index of the lookahead token in `tokens()`; its length at the end.
    pub closed spec fn index(&self) -> int {
        self.tokens().len() - self.rest().len()
    }

    pub closed spec fn wf(&self) -> bool {
        &&& self.lexer.wf()
        &&& self.current_token is None ==> self.lexer.remaining().len() == 0
        &&& self.rest().len() <= self.tokens().len()
        &&& self.rest() == self.tokens().subrange(self.index(), self.tokens().len() as int)
    }

    proof fn lemma_lookahead(&self)
        requires
            self.wf(),
        ensures
            0 <= self.index() <= self.tokens().len(),
            self.current_token matches Some(t) ==> self.index() < self.tokens().len()
                && self.tokens()[self.index()] == t@,
            self.current_token is None ==> self.index() == self.tokens().len(),
    {
        if let Some(t) = self.current_token {
            assert(self.rest()[0] == t@);
        }
    }

    pub fn new(input: &'inp str) -> (r: Parser<'inp>)
        ensures
            r.wf(),
            r.tokens() == tokens(input@),
            r.index() == 0,
    {
        let mut lexer = Lexer::new(input);
        let current_token = lexer.next_token();
        let r = Parser { lexer, current_token };
        proof {
            assert(r.rest() =~= tokens(input@));
            assert(r.rest() =~= r.tokens().subrange(0, r.tokens().len() as int));
        }
        r
    }

    /// Parses one term from the lookahead on; tokens after it are left unread.
    ///
    /// term ::= application
    ///        | LAMBDA LCID DOT term
    pub fn parse_term(&mut self) -> (r: Result<Node, ParserError>)
        requires
            old(self).wf(),
        ensures
            final(self).wf(),
            final(self).tokens() == old(self).tokens(),
            match term_at(old(self).tokens(), old(self).index()) {
                Ok((t, j)) => r matches Ok(n) && n@ == t && final(self).index() == j,
                Err(e) => r matches Err(pe) && pe@ == e,
            },
        decreases old(self).tokens().len() - old(self).index(), 4int,
    {
        match self.current_kind() {
            Some(TokenKind::Lambda) => self.parse_abstraction(),
            _ => self.parse_application(),
        }
    }

    fn parse_abstraction(&mut self) -> (r: Result<Node, ParserError>)
        requires
            old(self).wf(),
            old(self).index() < old(self).tokens().len(),
        ensures
            final(self).wf(),
            final(self).tokens() == old(self).tokens(),
            match abstraction_at(old(self).tokens(), old(self).index()) {
                Ok((t, j)) => r matches Ok(n) && n@ == t && final(self).index() == j,
                Err(e) => r matches Err(pe) && pe@ == e,
            },
        decreases old(self).tokens().len() - old(self).index(), 3int,
    {
        let ghost ts = self.tokens();
        let ghost i = self.index();
        self.advance();
        proof {
            self.lemma_lookahead();
        }
        let param = match &self.current_token {
            Some(Token { kind: TokenKind::LowercaseId, text }) => *text,
            Some(..) => {
                return Err(self.unexpected());
            },
            None => {
                return Err(ParserError::UnexpectedEndOfInput);
            },
        };
        assert(kind_at(ts, i + 1) == Some(TokenKind::LowercaseId) && param@ == ts[i + 1].1);
        self.advance();
        match self.expect(TokenKind::Dot) {
            Ok(()) => {},
            Err(e) => {
                return Err(e);
            },
        }
        let body = match self.parse_term() {
            Ok(b) => b,
            Err(e) => {
                return Err(e);
            },
        };
        Ok(Node::Abstraction(Box::new(Abstraction { param: String::from_str(param), body: Rc::new(body) })))
    }

    /// Parses applications, folding them to the left.
    ///
    /// application  ::= atom application'
    /// application' ::= atom application'
    ///                | ε
    fn parse_application(&mut self) -> (r: Result<Node, ParserError>)
        requires
            old(self).wf(),
        ensures
            final(self).wf(),
            final(self).tokens() == old(self).tokens(),
            match application_at(old(self).tokens(), old(self).index()) {
                Ok((t, j)) => r matches Ok(n) && n@ == t && final(self).index() == j,
                Err(e) => r matches Err(pe) && pe@ == e,
            },
        decreases old(self).tokens().len() - old(self).index(), 3int,
    {
        let ghost ts = self.tokens();
        let ghost i0 = self.index();
        proof {
            lemma_progress(ts, i0);
        }
        let mut lhs = match self.parse_atom() {
            Ok(n) => n,
            Err(e) => {
                return Err(e);
            },
        };
        while self.current_kind() == Some(TokenKind::LowercaseId) || self.current_kind() == Some(
            TokenKind::LeftParen,
        )
            invariant
                self.wf(),
                self.tokens() == ts,
                ts == old(self).tokens(),
                i0 == old(self).index(),
                i0 < self.index() <= ts.len(),
                application_at(ts, i0) == application_rest(ts, self.index(), lhs@),
            decreases ts.len() - self.index(),
        {
            let ghost i = self.index();
            proof {
                lemma_progress(ts, i);
            }
            let rhs = match self.parse_atom() {
                Ok(n) => n,
                Err(e) => {
                    return Err(e);
                },
            };
            lhs = Node::Application(Box::new(Application { lhs: Rc::new(lhs), rhs: Rc::new(rhs) }));
        }
        Ok(lhs)
    }

    /// Parses a term between brackets, or a lowercase identifier.
    ///
    /// atom ::= LPAREN term RPAREN
    ///        | LCID
    fn parse_atom(&mut self) -> (r: Result<Node, ParserError>)
        requires
            old(self).wf(),
        ensures
            final(self).wf(),
            final(self).tokens() == old(self).tokens(),
            match atom_at(old(self).tokens(), old(self).index()) {
                Ok((t, j)) => r matches Ok(n) && n@ == t && final(self).index() == j,
                Err(e) => r matches Err(pe) && pe@ == e,
            },
        decreases old(self).tokens().len() - old(self).index(), 1int,
    {
        match self.current_kind() {
            Some(TokenKind::LeftParen) => self.parse_parenthesized(),
            Some(TokenKind::LowercaseId) => self.parse_identifier(),
            Some(..) => Err(self.unexpected()),
            None => Err(ParserError::UnexpectedEndOfInput),
        }
    }

    fn parse_parenthesized(&mut self) -> (r: Result<Node, ParserError>)
        requires
            old(self).wf(),
            kind_at(old(self).tokens(), old(self).index()) == Some(TokenKind::LeftParen),
        ensures
            final(self).wf(),
            final(self).tokens() == old(self).tokens(),
            match atom_at(old(self).tokens(), old(self).index()) {
                Ok((t, j)) => r matches Ok(n) && n@ == t && final(self).index() == j,
                Err(e) => r matches Err(pe) && pe@ == e,
            },
        decreases old(self).tokens().len() - old(self).index(), 0int,
    {
        self.advance();
        let term = match self.parse_term() {
            Ok(t) => t,
            Err(e) => {
                return Err(e);
            },
        };
        match self.expect(TokenKind::RightParen) {
            Ok(()) => Ok(term),
            Err(e) => Err(e),
        }
    }

    fn parse_identifier(&mut self) -> (r: Result<Node, ParserError>)
        requires
            old(self).wf(),
        ensures
            final(self).wf(),
            final(self).tokens() == old(self).tokens(),
            old(self).index() < old(self).tokens().len() ==> (r matches Ok(n) && n@ == Term::Var(
                old(self).tokens()[old(self).index()].1,
            ) && final(self).index() == old(self).index() + 1),
            old(self).index() >= old(self).tokens().len() ==> (r matches Err(e) && e@
                == SyntaxError::EndOfInput),
    {
        proof {
            self.lemma_lookahead();
        }
        let id = match &self.current_token {
            Some(Token { text, .. }) => *text,
            None => {
                return Err(ParserError::UnexpectedEndOfInput);
            },
        };
        self.advance();
        Ok(Node::Identifier(Identifier { name: String::from_str(id) }))
    }

    /// Moves the lookahead on by one token; at the end it stays there.
    fn advance(&mut self)
        requires
            old(self).wf(),
        ensures
            final(self).wf(),
            final(self).tokens() == old(self).tokens(),
            old(self).index() < old(self).tokens().len() ==> final(self).index() == old(
                self,
            ).index() + 1,
            old(self).index() >= old(self).tokens().len() ==> final(self).index() == old(
                self,
            ).index(),
    {
        self.current_token = self.lexer.next_token();
        proof {
            let ts = self.tokens();
            let old_rest = old(self).rest();
            if old_rest.len() > 0 {
                assert(self.rest() =~= old_rest.drop_first());
                assert(self.rest() =~= ts.subrange(self.index(), ts.len() as int));
            } else {
                assert(self.rest() =~= old_rest);
            }
        }
    }

    /// Consumes the lookahead if it is of the given kind; otherwise reports it.
    fn expect(&mut self, kind: TokenKind) -> (r: Result<(), ParserError>)
        requires
            old(self).wf(),
        ensures
            final(self).wf(),
            final(self).tokens() == old(self).tokens(),
            kind_at(old(self).tokens(), old(self).index()) == Some(kind) ==> r is Ok
                && final(self).index() == old(self).index() + 1,
            kind_at(old(self).tokens(), old(self).index()) != Some(kind) ==> (r matches Err(e)
                && e@ == error_at(old(self).tokens(), old(self).index())),
    {
        match self.current_kind() {
            Some(k) => if k == kind {
                self.advance();
                Ok(())
            } else {
                Err(self.unexpected())
            },
            None => Err(ParserError::UnexpectedEndOfInput),
        }
    }

    /// The error for a lookahead that does not fit the grammar.
    fn unexpected(&self) -> (r: ParserError)
        requires
            self.wf(),
        ensures
            r@ == error_at(self.tokens(), self.index()),
    {
        proof {
            self.lemma_lookahead();
        }
        match &self.current_token {
            Some(t) => ParserError::UnexpectedToken(TokenError::from_token(t)),
            None => ParserError::UnexpectedEndOfInput,
        }
    }

    fn current_kind(&self) -> (r: Option<TokenKind>)
        requires
            self.wf(),
        ensures
            r == kind_at(self.tokens(), self.index()),
    {
        proof {
            self.lemma_lookahead();
        }
        match &self.current_token {
            Some(t) => Some(t.kind),
            None => None,
        }
    }
}

} // verus!
