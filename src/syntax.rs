//! Facts about text: the tokens that a rendered term reads as, and the terms
//! that such tokens and other small texts parse to.
use crate::ast::{render, Term};
use crate::lexer::{is_id_char, is_lower, tokens};
use crate::parser::{
    app, application_at, application_rest, atom_at, ident, kind_at, lemma_abstraction_extends_right,
    lemma_application_left_assoc, parse, term_at, var, Toks,
};
use crate::token::TokenKind;
use vstd::prelude::*;

verus! {

/// The tokens that the rendering of a term reads as.
pub open spec fn tokens_of(t: Term) -> Toks
    decreases t,
{
    match t {
        Term::Var(x) => seq![(TokenKind::LowercaseId, x)],
        Term::Lam(p, b) => seq![
            (TokenKind::LeftParen, seq!['(']),
            (TokenKind::Lambda, seq!['λ']),
            (TokenKind::LowercaseId, p),
            (TokenKind::Dot, seq!['.']),
        ] + tokens_of(*b) + seq![(TokenKind::RightParen, seq![')'])],
        Term::App(l, r) => tokens_of(*l) + tokens_of(*r),
    }
}

/// No application has an application as its argument. Rendering adds no
/// brackets around an argument, so only such terms read back as themselves.
pub open spec fn arguments_are_atoms(t: Term) -> bool
    decreases t,
{
    match t {
        Term::Var(_) => true,
        Term::Lam(_, b) => arguments_are_atoms(*b),
        Term::App(l, r) => !(*r is App) && arguments_are_atoms(*l) && arguments_are_atoms(*r),
    }
}

/// `ts` holds `u` from index `i` on.
pub open spec fn holds_at<A>(ts: Seq<A>, i: int, u: Seq<A>) -> bool {
    0 <= i && i + u.len() <= ts.len() && ts.subrange(i, i + u.len()) == u
}

proof fn lemma_tokens_of_first(t: Term)
    ensures
        tokens_of(t).len() > 0,
        tokens_of(t)[0].0 == TokenKind::LowercaseId || tokens_of(t)[0].0 == TokenKind::LeftParen,
        !(t is App) ==> (tokens_of(t)[0].0 == TokenKind::LowercaseId) == (t is Var),
    decreases t,
{
    if let Term::App(l, r) = t {
        lemma_tokens_of_first(*l);
    }
}

proof fn lemma_holds_split<A>(ts: Seq<A>, i: int, u: Seq<A>, v: Seq<A>)
    requires
        holds_at(ts, i, u + v),
    ensures
        holds_at(ts, i, u),
        holds_at(ts, i + u.len(), v),
{
    let w = ts.subrange(i, i + (u + v).len());
    assert(w == u + v);
    assert(ts.subrange(i, i + u.len()) =~= w.subrange(0, u.len() as int));
    assert(w.subrange(0, u.len() as int) =~= u);
    assert(ts.subrange(i + u.len(), i + u.len() + v.len()) =~= w.subrange(
        u.len() as int,
        w.len() as int,
    ));
    assert(w.subrange(u.len() as int, w.len() as int) =~= v);
}

proof fn lemma_holds_index<A>(ts: Seq<A>, i: int, u: Seq<A>, k: int)
    requires
        holds_at(ts, i, u),
        0 <= k < u.len(),
    ensures
        ts[i + k] == u[k],
{
    assert(ts.subrange(i, i + u.len())[k] == u[k]);
}

/// Parsing the tokens of a term, wherever they stand in a token sequence.
proof fn lemma_parse_tokens_of(ts: Toks, i: int, t: Term)
    requires
        arguments_are_atoms(t),
        holds_at(ts, i, tokens_of(t)),
    ensures
        !(t is App) ==> atom_at(ts, i) == Ok::<(Term, int), crate::parser::SyntaxError>(
            (t, i + tokens_of(t).len()),
        ),
        application_at(ts, i) == application_rest(ts, i + tokens_of(t).len(), t),
        kind_at(ts, i + tokens_of(t).len()) != Some(TokenKind::LowercaseId) && kind_at(
            ts,
            i + tokens_of(t).len(),
        ) != Some(TokenKind::LeftParen) ==> term_at(ts, i) == Ok::<
            (Term, int),
            crate::parser::SyntaxError,
        >((t, i + tokens_of(t).len())),
    decreases t,
{
    let n = tokens_of(t).len() as int;
    lemma_tokens_of_first(t);
    lemma_holds_index(ts, i, tokens_of(t), 0);
    match t {
        Term::Var(x) => {},
        Term::Lam(p, b) => {
            let head = seq![
                (TokenKind::LeftParen, seq!['(']),
                (TokenKind::Lambda, seq!['λ']),
                (TokenKind::LowercaseId, p),
                (TokenKind::Dot, seq!['.']),
            ];
            let tail = seq![(TokenKind::RightParen, seq![')'])];
            let bt = tokens_of(*b);
            assert(tokens_of(t) == head + bt + tail);
            lemma_holds_split(ts, i, head + bt, tail);
            lemma_holds_split(ts, i, head, bt);
            lemma_holds_index(ts, i, head, 1);
            lemma_holds_index(ts, i, head, 2);
            lemma_holds_index(ts, i, head, 3);
            lemma_holds_index(ts, i + 4 + bt.len(), tail, 0);
            lemma_parse_tokens_of(ts, i + 4, *b);
            assert(term_at(ts, i + 4) == Ok::<(Term, int), crate::parser::SyntaxError>(
                (*b, i + 4 + bt.len()),
            ));
            assert(term_at(ts, i + 1) == Ok::<(Term, int), crate::parser::SyntaxError>(
                (t, i + 4 + bt.len()),
            ));
        },
        Term::App(l, r) => {
            let lt = tokens_of(*l);
            let rt = tokens_of(*r);
            lemma_holds_split(ts, i, lt, rt);
            lemma_parse_tokens_of(ts, i, *l);
            lemma_parse_tokens_of(ts, i + lt.len(), *r);
            lemma_tokens_of_first(*r);
            lemma_holds_index(ts, i + lt.len(), rt, 0);
        },
    }
    if !(t is App) {
        assert(application_at(ts, i) == application_rest(ts, i + n, t));
    }
}

/// A lowercase letter followed by ASCII letters and digits.
pub open spec fn is_name(x: Seq<char>) -> bool {
    &&& x.len() > 0
    &&& is_lower(x[0])
    &&& forall|k: int| 1 <= k < x.len() ==> #[trigger] is_id_char(x[k])
}

/// Every identifier and parameter of the term is a name.
pub open spec fn names_valid(t: Term) -> bool
    decreases t,
{
    match t {
        Term::Var(x) => is_name(x),
        Term::Lam(p, b) => is_name(p) && names_valid(*b),
        Term::App(l, r) => names_valid(*l) && names_valid(*r),
    }
}

/// Position `e` of `s` ends an identifier: it is the end, or no letter or digit.
pub open spec fn ends_word(s: Seq<char>, e: int) -> bool {
    e == s.len() || !is_id_char(s[e])
}

proof fn lemma_id_run(s: Seq<char>, q: int, x: Seq<char>, k: int)
    requires
        is_name(x),
        holds_at(s, q, x),
        ends_word(s, q + x.len()),
        1 <= k <= x.len(),
    ensures
        crate::lexer::id_end(s, q + k) == q + x.len(),
    decreases x.len() - k,
{
    if k < x.len() {
        lemma_holds_index(s, q, x, k);
        lemma_id_run(s, q, x, k + 1);
    }
}

proof fn lemma_name_token(s: Seq<char>, q: int, x: Seq<char>)
    requires
        is_name(x),
        holds_at(s, q, x),
        ends_word(s, q + x.len()),
    ensures
        crate::lexer::tokens_from(s, q) == seq![(TokenKind::LowercaseId, x)]
            + crate::lexer::tokens_from(s, q + x.len()),
{
    lemma_holds_index(s, q, x, 0);
    lemma_id_run(s, q, x, 1);
    assert(crate::lexer::skip_spaces(s, q) == q);
}

proof fn lemma_char_token(s: Seq<char>, q: int, c: char)
    requires
        0 <= q < s.len(),
        s[q] == c,
        c == '(' || c == ')' || c == 'λ' || c == '.',
    ensures
        crate::lexer::tokens_from(s, q) == seq![(crate::lexer::kind_of(c), seq![c])]
            + crate::lexer::tokens_from(s, q + 1),
{
    assert(crate::lexer::skip_spaces(s, q) == q);
    assert(s.subrange(q, q + 1) =~= seq![c]);
}

proof fn lemma_space_token(s: Seq<char>, q: int)
    requires
        0 <= q < s.len(),
        s[q] == ' ',
    ensures
        crate::lexer::tokens_from(s, q) == crate::lexer::tokens_from(s, q + 1),
{
    assert(crate::lexer::skip_spaces(s, q) == crate::lexer::skip_spaces(s, q + 1));
    assert(crate::lexer::scan(s, q) == crate::lexer::scan(s, q + 1));
}

/// Reading the rendering of a term, wherever it stands in a text, gives the
/// term's tokens.
proof fn lemma_lex_render(s: Seq<char>, q: int, t: Term)
    requires
        names_valid(t),
        holds_at(s, q, render(t)),
        ends_word(s, q + render(t).len()),
    ensures
        crate::lexer::tokens_from(s, q) == tokens_of(t) + crate::lexer::tokens_from(
            s,
            q + render(t).len(),
        ),
    decreases t,
{
    match t {
        Term::Var(x) => {
            lemma_name_token(s, q, x);
        },
        Term::Lam(p, b) => {
            let rb = render(*b);
            let a = seq!['(', 'λ'];
            let d = seq!['.', ' '];
            let c = seq![')'];
            assert(render(t) == a + p + d + rb + c);
            lemma_holds_split(s, q, a + p + d + rb, c);
            lemma_holds_split(s, q, a + p + d, rb);
            lemma_holds_split(s, q, a + p, d);
            lemma_holds_split(s, q, a, p);
            lemma_holds_index(s, q, a, 0);
            lemma_holds_index(s, q, a, 1);
            let m = q + 2 + p.len();
            lemma_holds_index(s, m, d, 0);
            lemma_holds_index(s, m, d, 1);
            let e = m + 2 + rb.len();
            lemma_holds_index(s, e, c, 0);
            lemma_char_token(s, q, '(');
            lemma_char_token(s, q + 1, 'λ');
            lemma_name_token(s, q + 2, p);
            lemma_char_token(s, m, '.');
            lemma_space_token(s, m + 1);
            lemma_lex_render(s, m + 2, *b);
            lemma_char_token(s, e, ')');
            assert(tokens_of(t) =~= seq![
                (TokenKind::LeftParen, seq!['(']),
                (TokenKind::Lambda, seq!['λ']),
                (TokenKind::LowercaseId, p),
                (TokenKind::Dot, seq!['.']),
            ] + tokens_of(*b) + seq![(TokenKind::RightParen, seq![')'])]);
            assert(crate::lexer::tokens_from(s, q) =~= tokens_of(t) + crate::lexer::tokens_from(
                s,
                e + 1,
            ));
        },
        Term::App(l, r) => {
            let rl = render(*l);
            let rr = render(*r);
            let sp = seq![' '];
            assert(render(t) == rl + sp + rr);
            lemma_holds_split(s, q, rl + sp, rr);
            lemma_holds_split(s, q, rl, sp);
            lemma_holds_index(s, q + rl.len(), sp, 0);
            lemma_lex_render(s, q, *l);
            lemma_space_token(s, q + rl.len());
            lemma_lex_render(s, q + rl.len() + 1, *r);
            assert(crate::lexer::tokens_from(s, q) =~= tokens_of(t) + crate::lexer::tokens_from(
                s,
                q + render(t).len(),
            ));
        },
    }
}

/// A term whose names are all identifiers, and no argument of which is an
/// application, renders to text that parses back to that same term, taking in
/// every token of the text.
pub proof fn lemma_parse_render(t: Term)
    requires
        names_valid(t),
        arguments_are_atoms(t),
    ensures
        tokens(render(t)) == tokens_of(t),
        parse(render(t)) == Ok::<(Term, int), crate::parser::SyntaxError>(
            (t, tokens(render(t)).len() as int),
        ),
{
    let s = render(t);
    assert(s.subrange(0, s.len() as int) =~= s);
    lemma_lex_render(s, 0, t);
    assert(crate::lexer::tokens_from(s, s.len() as int) =~= Seq::<(TokenKind, Seq<char>)>::empty());
    assert(tokens(s) =~= tokens_of(t));
    let ts = tokens_of(t);
    assert(ts.subrange(0, ts.len() as int) =~= ts);
    lemma_parse_tokens_of(ts, 0, t);
}

/// Every identifier token holds a name.
pub open spec fn lcids_are_names(ts: Toks) -> bool {
    forall|k: int|
        0 <= k < ts.len() && #[trigger] ts[k].0 == TokenKind::LowercaseId ==> is_name(ts[k].1)
}

proof fn lemma_id_end_chars(s: Seq<char>, q: int)
    requires
        0 <= q,
    ensures
        forall|k: int| q <= k < crate::lexer::id_end(s, q) ==> is_id_char(#[trigger] s[k]),
    decreases s.len() - q,
{
    if 0 <= q < s.len() && is_id_char(s[q]) {
        lemma_id_end_chars(s, q + 1);
    }
}

/// The lexer reads identifiers only as names.
proof fn lemma_tokens_are_names(s: Seq<char>, p: int)
    requires
        0 <= p,
    ensures
        lcids_are_names(crate::lexer::tokens_from(s, p)),
    decreases s.len() - p,
{
    crate::lexer::lemma_scan_bounds(s, p);
    if let Some((k, a, e)) = crate::lexer::scan(s, p) {
        lemma_tokens_are_names(s, e);
        let rest = crate::lexer::tokens_from(s, e);
        let ts = crate::lexer::tokens_from(s, p);
        assert(ts == seq![(k, s.subrange(a, e))] + rest);
        if k == TokenKind::LowercaseId {
            lemma_id_end_chars(s, a + 1);
            let x = s.subrange(a, e);
            assert forall|j: int| 1 <= j < x.len() implies #[trigger] is_id_char(x[j]) by {
                assert(x[j] == s[a + j]);
            }
            assert(is_name(x));
        }
        assert forall|j: int|
            0 <= j < ts.len() && #[trigger] ts[j].0 == TokenKind::LowercaseId implies is_name(
            ts[j].1,
        ) by {
            if j > 0 {
                assert(ts[j] == rest[j - 1]);
            }
        }
    }
}

/// Whatever the parser builds from identifier tokens that hold names has only
/// names in it.
proof fn lemma_parsed_names(ts: Toks, i: int)
    requires
        0 <= i,
        lcids_are_names(ts),
    ensures
        term_at(ts, i) matches Ok((t, _)) ==> names_valid(t),
        crate::parser::abstraction_at(ts, i) matches Ok((t, _)) ==> names_valid(t),
        application_at(ts, i) matches Ok((t, _)) ==> names_valid(t),
        atom_at(ts, i) matches Ok((t, _)) ==> names_valid(t),
        forall|acc: Term|
            names_valid(acc) ==> (#[trigger] application_rest(ts, i, acc) matches Ok((t, _))
                ==> names_valid(t)),
    decreases ts.len() - i,
{
    crate::parser::lemma_progress(ts, i);
    if i < ts.len() {
        lemma_parsed_names(ts, i + 1);
    }
    if i + 3 <= ts.len() {
        lemma_parsed_names(ts, i + 3);
    }
    if i + 1 < ts.len() && ts[i + 1].0 == TokenKind::LowercaseId {
        assert(is_name(ts[i + 1].1));
    }
    if i < ts.len() && ts[i].0 == TokenKind::LowercaseId {
        assert(is_name(ts[i].1));
    }
    assert(atom_at(ts, i) matches Ok((r, _)) ==> names_valid(r));
    assert forall|acc: Term|
        names_valid(acc) implies (#[trigger] application_rest(ts, i, acc) matches Ok((t, _))
        ==> names_valid(t)) by {
        if kind_at(ts, i) == Some(TokenKind::LowercaseId) || kind_at(ts, i) == Some(
            TokenKind::LeftParen,
        ) {
            if let Ok((r, j)) = atom_at(ts, i) {
                let next = Term::App(Box::new(acc), Box::new(r));
                assert(names_valid(next));
                if i < j <= ts.len() {
                    lemma_parsed_names(ts, j);
                    assert(application_rest(ts, j, next) matches Ok((t, _)) ==> names_valid(t));
                }
            }
        }
    }
    if let Ok((t, j)) = atom_at(ts, i) {
        if i < j <= ts.len() {
            lemma_parsed_names(ts, j);
            assert(application_rest(ts, j, t) matches Ok((u, _)) ==> names_valid(u));
        }
    }
}

/// Round trip: when an input parses to a term, the rendering of that term
/// parses to the same term. Rendering brackets no argument, so the law is
/// stated for terms in which no argument is an application (`a (b c)` renders
/// as `a b c`, which parses as `(a b) c`).
pub proof fn lemma_round_trip(s: Seq<char>)
    requires
        parse(s) is Ok,
        arguments_are_atoms(parse(s)->Ok_0.0),
    ensures
        parse(render(parse(s)->Ok_0.0)) == Ok::<(Term, int), crate::parser::SyntaxError>(
            (parse(s)->Ok_0.0, tokens(render(parse(s)->Ok_0.0)).len() as int),
        ),
{
    lemma_tokens_are_names(s, 0);
    lemma_parsed_names(tokens(s), 0);
    lemma_parse_render(parse(s)->Ok_0.0);
}

/// Three names separated by spaces parse as the first applied to the second,
/// all applied to the third.
pub proof fn lemma_text_application_left_assoc(a: Seq<char>, b: Seq<char>, c: Seq<char>)
    requires
        is_name(a),
        is_name(b),
        is_name(c),
    ensures
        parse(a + seq![' '] + b + seq![' '] + c) == Ok::<(Term, int), crate::parser::SyntaxError>(
            (app(app(var(a), var(b)), var(c)), 3),
        ),
{
    let ab = app(var(a), var(b));
    let t = app(ab, var(c));
    assert(render(var(a)) == a);
    assert(render(var(b)) == b);
    assert(render(var(c)) == c);
    assert(render(ab) == a + seq![' '] + b);
    assert(render(t) == render(ab) + seq![' '] + c);
    assert(render(t) =~= a + seq![' '] + b + seq![' '] + c);
    assert(names_valid(var(a)) && names_valid(var(b)) && names_valid(var(c)));
    assert(names_valid(ab));
    assert(names_valid(t));
    assert(arguments_are_atoms(var(a)) && arguments_are_atoms(var(b)) && arguments_are_atoms(
        var(c),
    ));
    assert(arguments_are_atoms(ab));
    assert(arguments_are_atoms(t));
    lemma_parse_render(t);
    assert(tokens_of(var(a)).len() == 1 && tokens_of(var(b)).len() == 1 && tokens_of(
        var(c),
    ).len() == 1);
    assert(tokens_of(ab).len() == 2);
    assert(tokens_of(t).len() == 3);
}

#[verifier::rlimit(80)]
proof fn lemma_lex_abstractions(x: Seq<char>, y: Seq<char>, z: Seq<char>)
    requires
        is_name(x),
        is_name(y),
        is_name(z),
    ensures
        tokens(seq!['λ'] + x + seq!['.', ' ', 'λ'] + y + seq!['.', ' '] + z) == seq![
            (TokenKind::Lambda, seq!['λ']),
        ] + seq![ident(x)] + seq![(TokenKind::Dot, seq!['.'])] + seq![
            (TokenKind::Lambda, seq!['λ']),
        ] + seq![ident(y)] + seq![(TokenKind::Dot, seq!['.'])] + seq![ident(z)],
{
    let l = seq!['λ'];
    let d = seq!['.', ' ', 'λ'];
    let e = seq!['.', ' '];
    let s = l + x + d + y + e + z;
    let p1: int = 1 + x.len() as int;
    let p2: int = p1 + 3 + y.len() as int;
    let p3: int = p2 + 2;
    assert(s.len() == p3 + z.len());
    assert(s.subrange(0, s.len() as int) =~= s);
    lemma_holds_split(s, 0, l + x + d + y + e, z);
    lemma_holds_split(s, 0, l + x + d + y, e);
    lemma_holds_split(s, 0, l + x + d, y);
    lemma_holds_split(s, 0, l + x, d);
    lemma_holds_split(s, 0, l, x);
    lemma_holds_index(s, 0, l, 0);
    lemma_holds_index(s, p1, d, 0);
    lemma_holds_index(s, p1, d, 1);
    lemma_holds_index(s, p1, d, 2);
    lemma_holds_index(s, p2, e, 0);
    lemma_holds_index(s, p2, e, 1);
    let tf = |q: int| crate::lexer::tokens_from(s, q);
    lemma_name_token(s, p3, z);
    assert(crate::lexer::tokens_from(s, s.len() as int) =~= Seq::<(TokenKind, Seq<char>)>::empty());
    assert(tf(p3) =~= seq![ident(z)]);
    lemma_space_token(s, p2 + 1);
    lemma_char_token(s, p2, '.');
    assert(tf(p2) =~= seq![(TokenKind::Dot, seq!['.'])] + seq![ident(z)]);
    lemma_name_token(s, p1 + 3, y);
    lemma_char_token(s, p1 + 2, 'λ');
    lemma_space_token(s, p1 + 1);
    lemma_char_token(s, p1, '.');
    lemma_name_token(s, 1, x);
    lemma_char_token(s, 0, 'λ');
}

/// `λx. λy. z` is read as one abstraction whose body is the other, the whole
/// text taken in.
pub proof fn lemma_text_abstraction_extends_right(x: Seq<char>, y: Seq<char>, z: Seq<char>)
    requires
        is_name(x),
        is_name(y),
        is_name(z),
    ensures
        parse(
            seq!['λ'] + x + seq!['.', ' ', 'λ'] + y + seq!['.', ' '] + z,
        ) == Ok::<(Term, int), crate::parser::SyntaxError>(
            (Term::Lam(x, Box::new(Term::Lam(y, Box::new(var(z))))), 7),
        ),
{
    let s = seq!['λ'] + x + seq!['.', ' ', 'λ'] + y + seq!['.', ' '] + z;
    lemma_lex_abstractions(x, y, z);
    assert(tokens(s) =~= seq![
        (TokenKind::Lambda, seq!['λ']),
        ident(x),
        (TokenKind::Dot, seq!['.']),
        (TokenKind::Lambda, seq!['λ']),
        ident(y),
        (TokenKind::Dot, seq!['.']),
        ident(z),
    ]);
    lemma_abstraction_extends_right(seq!['λ'], x, seq!['.'], seq!['λ'], y, seq!['.'], z);
}

} // verus!
