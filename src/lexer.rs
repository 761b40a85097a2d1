use crate::token::{Token, TokenKind};
use vstd::prelude::*;

verus! {

/// Unicode white space, as `char::is_whitespace` defines it.
pub open spec fn is_space(c: char) -> bool {
    let u = c as u32;
    (0x9 <= u <= 0xd) || u == 0x20 || u == 0x85 || u == 0xa0 || u == 0x1680 || (0x2000 <= u
        <= 0x200a) || u == 0x2028 || u == 0x2029 || u == 0x202f || u == 0x205f || u == 0x3000
}

pub open spec fn is_lower(c: char) -> bool {
    0x61 <= c as u32 <= 0x7a
}

/// An ASCII letter or digit.
pub open spec fn is_id_char(c: char) -> bool {
    let u = c as u32;
    (0x30 <= u <= 0x39) || (0x41 <= u <= 0x5a) || (0x61 <= u <= 0x7a)
}

/// The kind of token that a character starts.
pub open spec fn kind_of(c: char) -> TokenKind {
    if c == '(' {
        TokenKind::LeftParen
    } else if c == ')' {
        TokenKind::RightParen
    } else if c == 'λ' || c == '\\' {
        TokenKind::Lambda
    } else if c == '.' {
        TokenKind::Dot
    } else if is_lower(c) {
        TokenKind::LowercaseId
    } else {
        TokenKind::Unknown
    }
}

/// The first position at or after `p` that does not hold white space.
pub open spec fn skip_spaces(s: Seq<char>, p: int) -> int
    decreases s.len() - p,
{
    if 0 <= p < s.len() && is_space(s[p]) {
        skip_spaces(s, p + 1)
    } else {
        p
    }
}

/// The first position at or after `p` that does not hold a letter or digit.
pub open spec fn id_end(s: Seq<char>, p: int) -> int
    decreases s.len() - p,
{
    if 0 <= p < s.len() && is_id_char(s[p]) {
        id_end(s, p + 1)
    } else {
        p
    }
}

/// The next token read from position `p`: its kind, start and end.
pub open spec fn scan(s: Seq<char>, p: int) -> Option<(TokenKind, int, int)> {
    let q = skip_spaces(s, p);
    if q >= s.len() {
        None
    } else {
        let k = kind_of(s[q]);
        let e = if k == TokenKind::LowercaseId {
            id_end(s, q + 1)
        } else {
            q + 1
        };
        Some((k, q, e))
    }
}

/// Every token read from position `p` on, each as its kind and text.
pub open spec fn tokens_from(s: Seq<char>, p: int) -> Seq<(TokenKind, Seq<char>)>
    decreases s.len() - p,
    via tokens_from_decreases
{
    match scan(s, p) {
        None => Seq::empty(),
        Some((k, a, e)) => seq![(k, s.subrange(a, e))] + tokens_from(s, e),
    }
}

/// The tokens of a whole input.
pub open spec fn tokens(s: Seq<char>) -> Seq<(TokenKind, Seq<char>)> {
    tokens_from(s, 0)
}

#[via_fn]
proof fn tokens_from_decreases(s: Seq<char>, p: int) {
    lemma_scan_bounds(s, p);
}

proof fn lemma_skip_spaces_bounds(s: Seq<char>, p: int)
    ensures
        skip_spaces(s, p) >= p,
        p <= s.len() ==> skip_spaces(s, p) <= s.len(),
        0 <= skip_spaces(s, p) < s.len() ==> !is_space(s[skip_spaces(s, p)]),
    decreases s.len() - p,
{
    if 0 <= p < s.len() && is_space(s[p]) {
        lemma_skip_spaces_bounds(s, p + 1);
    }
}

proof fn lemma_id_end_bounds(s: Seq<char>, p: int)
    ensures
        id_end(s, p) >= p,
        p <= s.len() ==> id_end(s, p) <= s.len(),
    decreases s.len() - p,
{
    if 0 <= p < s.len() && is_id_char(s[p]) {
        lemma_id_end_bounds(s, p + 1);
    }
}

/// A token read from `p` starts at or after `p`, is not empty, and ends
/// inside the input.
pub proof fn lemma_scan_bounds(s: Seq<char>, p: int)
    ensures
        scan(s, p) matches Some((k, a, e)) ==> p <= a < e <= s.len(),
{
    lemma_skip_spaces_bounds(s, p);
    let q = skip_spaces(s, p);
    lemma_id_end_bounds(s, q + 1);
}

/// Reads tokens from a string, one at a time, on demand.
pub struct Lexer<'inp> {
    buffer: &'inp str,
    len: usize,
    pos: usize,
    start: usize,
}

impl<'inp> Lexer<'inp> {
    /// The characters being read.
    pub closed spec fn input(&self) -> Seq<char> {
        self.buffer@
    }

    /// Position of the next character to read.
    pub closed spec fn position(&self) -> int {
        self.pos as int
    }

    pub closed spec fn wf(&self) -> bool {
        &&& self.len == self.buffer@.len()
        &&& self.pos <= self.len
    }

    /// The tokens that are still to come.
    pub open spec fn remaining(&self) -> Seq<(TokenKind, Seq<char>)> {
        tokens_from(self.input(), self.position())
    }

    pub fn new(input: &'inp str) -> (r: Lexer<'inp>)
        ensures
            r.wf(),
            r.input() == input@,
            r.position() == 0,
            r.remaining() == tokens(input@),
    {
        Lexer { buffer: input, len: input.unicode_len(), pos: 0, start: 0 }
    }

    fn advance(&mut self) -> (r: Option<char>)
        requires
            old(self).wf(),
        ensures
            final(self).wf(),
            final(self).buffer == old(self).buffer,
            final(self).start == old(self).start,
            old(self).pos < old(self).len ==> r == Some(old(self).buffer@[old(self).pos as int])
                && final(self).pos == old(self).pos + 1,
            old(self).pos >= old(self).len ==> r is None && final(self).pos == old(self).pos,
    {
        if self.pos < self.len {
            let c = self.buffer.get_char(self.pos);
            self.pos = self.pos + 1;
            Some(c)
        } else {
            None
        }
    }

    fn peek(&self) -> (r: Option<char>)
        requires
            self.wf(),
        ensures
            self.pos < self.len ==> r == Some(self.buffer@[self.pos as int]),
            self.pos >= self.len ==> r is None,
    {
        if self.pos < self.len {
            Some(self.buffer.get_char(self.pos))
        } else {
            None
        }
    }

    /// Reads the next token; `None` once the input is used up, on every call.
    pub fn next_token(&mut self) -> (r: Option<Token<'inp>>)
        requires
            old(self).wf(),
        ensures
            final(self).wf(),
            final(self).input() == old(self).input(),
            match scan(old(self).input(), old(self).position()) {
                None => r is None && final(self).position() == skip_spaces(
                    old(self).input(),
                    old(self).position(),
                ),
                Some((k, a, e)) => r matches Some(t) && t@ == (k, old(self).input().subrange(a, e))
                    && final(self).position() == e,
            },
            r is None ==> old(self).remaining() == Seq::<(TokenKind, Seq<char>)>::empty()
                && final(self).remaining() == Seq::<(TokenKind, Seq<char>)>::empty(),
            r matches Some(t) ==> old(self).remaining() == seq![t@] + final(self).remaining(),
    {
        self.skip_whitespace();
        self.start = self.pos;
        proof {
            lemma_scan_bounds(self.buffer@, old(self).pos as int);
        }
        if let Some(c) = self.peek() {
            let tok = if c == '(' {
                self.create_token(TokenKind::LeftParen)
            } else if c == ')' {
                self.create_token(TokenKind::RightParen)
            } else if c == 'λ' || c == '\\' {
                self.create_token(TokenKind::Lambda)
            } else if c == '.' {
                self.create_token(TokenKind::Dot)
            } else if is_lower_char(c) {
                self.read_lcid()
            } else {
                self.create_token(TokenKind::Unknown)
            };
            Some(tok)
        } else {
            proof {
                let s = self.buffer@;
                let q = self.pos as int;
                assert(skip_spaces(s, q) == q);
                assert(scan(s, q) is None);
            }
            None
        }
    }

    fn create_token(&mut self, kind: TokenKind) -> (r: Token<'inp>)
        requires
            old(self).wf(),
            old(self).pos < old(self).len,
            old(self).start == old(self).pos,
        ensures
            final(self).wf(),
            final(self).buffer == old(self).buffer,
            final(self).start == old(self).start,
            final(self).pos == old(self).pos + 1,
            r@ == (kind, old(self).buffer@.subrange(old(self).pos as int, old(self).pos + 1)),
    {
        self.advance();
        Token { kind, text: self.buffer.substring_char(self.start, self.pos) }
    }

    fn skip_whitespace(&mut self)
        requires
            old(self).wf(),
        ensures
            final(self).wf(),
            final(self).buffer == old(self).buffer,
            final(self).pos == skip_spaces(old(self).buffer@, old(self).pos as int),
    {
        while self.pos < self.len && is_space_char(self.buffer.get_char(self.pos))
            invariant
                self.wf(),
                self.buffer == old(self).buffer,
                skip_spaces(self.buffer@, self.pos as int) == skip_spaces(
                    old(self).buffer@,
                    old(self).pos as int,
                ),
            decreases self.len - self.pos,
        {
            self.advance();
        }
    }

    fn read_lcid(&mut self) -> (r: Token<'inp>)
        requires
            old(self).wf(),
            old(self).pos < old(self).len,
            old(self).start == old(self).pos,
        ensures
            final(self).wf(),
            final(self).buffer == old(self).buffer,
            final(self).pos == id_end(old(self).buffer@, old(self).pos + 1),
            r@ == (
                TokenKind::LowercaseId,
                old(self).buffer@.subrange(old(self).pos as int, final(self).pos as int),
            ),
    {
        self.advance();
        while self.pos < self.len && is_id_char_exec(self.buffer.get_char(self.pos))
            invariant
                self.wf(),
                self.buffer == old(self).buffer,
                self.start == old(self).start,
                self.start < self.pos,
                id_end(self.buffer@, self.pos as int) == id_end(
                    old(self).buffer@,
                    old(self).pos + 1,
                ),
            decreases self.len - self.pos,
        {
            self.advance();
        }
        Token { kind: TokenKind::LowercaseId, text: self.buffer.substring_char(self.start, self.pos) }
    }
}

fn is_space_char(c: char) -> (r: bool)
    ensures
        r == is_space(c),
{
    let u = c as u32;
    (0x9 <= u && u <= 0xd) || u == 0x20 || u == 0x85 || u == 0xa0 || u == 0x1680 || (0x2000 <= u
        && u <= 0x200a) || u == 0x2028 || u == 0x2029 || u == 0x202f || u == 0x205f || u == 0x3000
}

fn is_lower_char(c: char) -> (r: bool)
    ensures
        r == is_lower(c),
{
    let u = c as u32;
    0x61 <= u && u <= 0x7a
}

fn is_id_char_exec(c: char) -> (r: bool)
    ensures
        r == is_id_char(c),
{
    let u = c as u32;
    (0x30 <= u && u <= 0x39) || (0x41 <= u && u <= 0x5a) || (0x61 <= u && u <= 0x7a)
}

} // verus!
