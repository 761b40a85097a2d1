use crate::ast::{Abstraction, Application, Identifier, Node, Term};
use std::rc::Rc;
use vstd::prelude::*;

verus! {

/// Whether `x` occurs free in `t`.
pub open spec fn free_in(x: Seq<char>, t: Term) -> bool
    decreases t,
{
    match t {
        Term::Var(y) => y == x,
        Term::Lam(y, b) => y != x && free_in(x, *b),
        Term::App(l, r) => free_in(x, *l) || free_in(x, *r),
    }
}

/// The number of nodes of a term.
pub open spec fn size(t: Term) -> nat
    decreases t,
{
    match t {
        Term::Var(_) => 1,
        Term::Lam(_, b) => 1 + size(*b),
        Term::App(l, r) => 1 + size(*l) + size(*r),
    }
}

pub open spec fn max(a: nat, b: nat) -> nat {
    if a >= b {
        a
    } else {
        b
    }
}

/// The length of the longest name, free or bound, in a term.
pub open spec fn longest(t: Term) -> nat
    decreases t,
{
    match t {
        Term::Var(x) => x.len(),
        Term::Lam(p, b) => max(p.len(), longest(*b)),
        Term::App(l, r) => max(longest(*l), longest(*r)),
    }
}

/// A new name for the binder `y`: `y` followed by as many `0`s as make it
/// longer than `x` and than every name in `b` and in `v`.
pub open spec fn fresh_name(y: Seq<char>, x: Seq<char>, b: Term, v: Term) -> Seq<char> {
    let m = max(max(longest(b), longest(v)), x.len());
    y + Seq::new(
        if y.len() > m {
            0
        } else {
            (m + 1 - y.len()) as nat
        },
        |k: int| '0',
    )
}

/// `t` with each free occurrence of `y` turned into `z`; meant for a `z` that
/// occurs nowhere in `t`.
pub open spec fn rename(t: Term, y: Seq<char>, z: Seq<char>) -> Term
    decreases t,
{
    match t {
        Term::Var(w) => if w == y {
            Term::Var(z)
        } else {
            t
        },
        Term::Lam(w, b) => if w == y {
            t
        } else {
            Term::Lam(w, Box::new(rename(*b, y, z)))
        },
        Term::App(l, r) => Term::App(Box::new(rename(*l, y, z)), Box::new(rename(*r, y, z))),
    }
}

/// Capture-avoiding substitution: `t` with each free occurrence of `x`
/// replaced by `v`. A binder of `t` that `v` has free, and under which `x`
/// occurs free, is first renamed to a fresh name.
pub open spec fn subst(t: Term, x: Seq<char>, v: Term) -> Term
    decreases size(t),
    via subst_decreases
{
    match t {
        Term::Var(y) => if y == x {
            v
        } else {
            t
        },
        Term::Lam(y, b) => if y == x {
            t
        } else if free_in(y, v) && free_in(x, *b) {
            let z = fresh_name(y, x, *b, v);
            Term::Lam(z, Box::new(subst(rename(*b, y, z), x, v)))
        } else {
            Term::Lam(y, Box::new(subst(*b, x, v)))
        },
        Term::App(l, r) => Term::App(Box::new(subst(*l, x, v)), Box::new(subst(*r, x, v))),
    }
}

#[via_fn]
proof fn subst_decreases(t: Term, x: Seq<char>, v: Term) {
    if let Term::Lam(y, b) = t {
        lemma_rename_size(*b, y, fresh_name(y, x, *b, v));
    }
}

proof fn lemma_rename_size(t: Term, y: Seq<char>, z: Seq<char>)
    ensures
        size(rename(t, y, z)) == size(t),
    decreases t,
{
    match t {
        Term::Var(_) => {},
        Term::Lam(_, b) => lemma_rename_size(*b, y, z),
        Term::App(l, r) => {
            lemma_rename_size(*l, y, z);
            lemma_rename_size(*r, y, z);
        },
    }
}

proof fn lemma_free_len(w: Seq<char>, t: Term)
    requires
        free_in(w, t),
    ensures
        w.len() <= longest(t),
    decreases t,
{
    match t {
        Term::Var(_) => {},
        Term::Lam(_, b) => lemma_free_len(w, *b),
        Term::App(l, r) => if free_in(w, *l) {
            lemma_free_len(w, *l);
        } else {
            lemma_free_len(w, *r);
        },
    }
}

proof fn lemma_longest_bound(t: Term)
    ensures
        match t {
            Term::Var(x) => x.len() <= longest(t),
            Term::Lam(p, b) => p.len() <= longest(t) && longest(*b) <= longest(t),
            Term::App(l, r) => longest(*l) <= longest(t) && longest(*r) <= longest(t),
        },
{
}

/// Renaming `y` to a name longer than every name of `t` moves exactly the
/// free occurrences of `y` to that name.
proof fn lemma_rename_free(t: Term, y: Seq<char>, z: Seq<char>, w: Seq<char>)
    requires
        z.len() > longest(t),
        z != y,
    ensures
        free_in(w, rename(t, y, z)) == if w == z {
            free_in(y, t)
        } else {
            w != y && free_in(w, t)
        },
    decreases t,
{
    lemma_longest_bound(t);
    if free_in(z, t) {
        lemma_free_len(z, t);
    }
    match t {
        Term::Var(_) => {},
        Term::Lam(u, c) => {
            if u != y {
                lemma_rename_free(*c, y, z, w);
            }
        },
        Term::App(l, r) => {
            lemma_rename_free(*l, y, z, w);
            lemma_rename_free(*r, y, z, w);
        },
    }
}

/// Substitution is capture-avoiding: a name is free in `t[x := v]` exactly
/// when it is free in `t` and is not `x`, or `x` is free in `t` and the name is
/// free in `v`.
pub proof fn lemma_subst_free(t: Term, x: Seq<char>, v: Term, w: Seq<char>)
    ensures
        free_in(w, subst(t, x, v)) == ((free_in(w, t) && w != x) || (free_in(x, t) && free_in(
            w,
            v,
        ))),
    decreases size(t),
{
    match t {
        Term::Var(_) => {},
        Term::App(l, r) => {
            lemma_subst_free(*l, x, v, w);
            lemma_subst_free(*r, x, v, w);
        },
        Term::Lam(y, b) => {
            if y != x {
                if free_in(y, v) && free_in(x, *b) {
                    let z = fresh_name(y, x, *b, v);
                    let m = max(max(longest(*b), longest(v)), x.len());
                    lemma_free_len(y, v);
                    assert(z.len() == m + 1);
                    assert(z != y);
                    assert(z != x);
                    lemma_rename_size(*b, y, z);
                    lemma_subst_free(rename(*b, y, z), x, v, w);
                    lemma_rename_free(*b, y, z, w);
                    lemma_rename_free(*b, y, z, x);
                    if free_in(z, v) {
                        lemma_free_len(z, v);
                    }
                    if free_in(z, *b) {
                        lemma_free_len(z, *b);
                    }
                } else {
                    lemma_subst_free(*b, x, v, w);
                }
            }
        },
    }
}

/// One beta step on evaluated parts: `(λp. b) a` becomes `b[p := a]`; any
/// other pair stays applied.
pub open spec fn reduce(f: Term, a: Term) -> Term {
    match f {
        Term::Lam(p, b) => subst(*b, p, a),
        _ => Term::App(Box::new(f), Box::new(a)),
    }
}

/// Evaluation: an application evaluates both sides, left first, then reduces
/// the pair once; identifiers and abstractions are values.
pub open spec fn evaluate(t: Term) -> Term
    decreases t,
{
    match t {
        Term::App(l, r) => reduce(evaluate(*l), evaluate(*r)),
        _ => t,
    }
}

/// A term with no redex that evaluation would reach: an identifier, an
/// abstraction, or an application of such terms whose head is no abstraction.
pub open spec fn is_irreducible(t: Term) -> bool
    decreases t,
{
    match t {
        Term::App(l, r) => !(*l is Lam) && is_irreducible(*l) && is_irreducible(*r),
        _ => true,
    }
}

/// Evaluating an irreducible term gives back that same term.
pub proof fn lemma_evaluate_irreducible(t: Term)
    requires
        is_irreducible(t),
    ensures
        evaluate(t) == t,
    decreases t,
{
    if let Term::App(l, r) = t {
        lemma_evaluate_irreducible(*l);
        lemma_evaluate_irreducible(*r);
    }
}

/// Reduces a term by beta reduction, bottom up.
pub fn eval(node: Rc<Node>) -> (r: Rc<Node>)
    ensures
        r@ == evaluate(node@),
    decreases *node,
{
    match &*node {
        Node::Application(app) => {
            let lhs = eval(app.lhs.clone());
            let rhs = eval(app.rhs.clone());
            if let Node::Abstraction(abs) = &*lhs {
                substitute(&rhs, abs.param.as_str(), &abs.body)
            } else {
                Rc::new(Node::Application(Box::new(Application { lhs: lhs.clone(), rhs: rhs.clone() })))
            }
        },
        _ => node.clone(),
    }
}

/// Replaces each free occurrence of `name` in `node` by `value`, renaming
/// binders that would capture a free variable of `value`.
fn substitute(value: &Rc<Node>, name: &str, node: &Rc<Node>) -> (r: Rc<Node>)
    ensures
        r@ == subst(node@, name@, value@),
    decreases size(node@),
{
    match &**node {
        Node::Identifier(id) => {
            if same_name(id.name.as_str(), name) {
                value.clone()
            } else {
                node.clone()
            }
        },
        Node::Application(app) => Rc::new(
            Node::Application(
                Box::new(
                    Application {
                        lhs: substitute(value, name, &app.lhs),
                        rhs: substitute(value, name, &app.rhs),
                    },
                ),
            ),
        ),
        Node::Abstraction(abs) => {
            let param = abs.param.as_str();
            if same_name(param, name) {
                node.clone()
            } else if is_free(param, value) && is_free(name, &abs.body) {
                let z = fresh(param, name, &abs.body, value);
                let renamed = rename_free(&abs.body, param, z.as_str());
                proof {
                    lemma_rename_size(abs.body@, param@, z@);
                }
                let body = substitute(value, name, &renamed);
                Rc::new(Node::Abstraction(Box::new(Abstraction { param: z, body })))
            } else {
                let body = substitute(value, name, &abs.body);
                Rc::new(Node::Abstraction(Box::new(Abstraction { param: abs.param.clone(), body })))
            }
        },
    }
}

/// Turns each free occurrence of `from` in `node` into `to`.
fn rename_free(node: &Rc<Node>, from: &str, to: &str) -> (r: Rc<Node>)
    ensures
        r@ == rename(node@, from@, to@),
    decreases *node,
{
    match &**node {
        Node::Identifier(id) => {
            if same_name(id.name.as_str(), from) {
                Rc::new(Node::Identifier(Identifier { name: String::from_str(to) }))
            } else {
                node.clone()
            }
        },
        Node::Application(app) => Rc::new(
            Node::Application(
                Box::new(
                    Application {
                        lhs: rename_free(&app.lhs, from, to),
                        rhs: rename_free(&app.rhs, from, to),
                    },
                ),
            ),
        ),
        Node::Abstraction(abs) => {
            if same_name(abs.param.as_str(), from) {
                node.clone()
            } else {
                let body = rename_free(&abs.body, from, to);
                Rc::new(Node::Abstraction(Box::new(Abstraction { param: abs.param.clone(), body })))
            }
        },
    }
}

/// A name for the binder `y` that is longer than `x` and than every name in
/// `body` and `value`.
fn fresh(y: &str, x: &str, body: &Rc<Node>, value: &Rc<Node>) -> (r: String)
    ensures
        r@ == fresh_name(y@, x@, body@, value@),
{
    let a = longest_name(body);
    let b = longest_name(value);
    let c = x.unicode_len();
    let m = if a >= b {
        a
    } else {
        b
    };
    let m = if m >= c {
        m
    } else {
        c
    };
    let mut z = String::from_str(y);
    let ghost target = fresh_name(y@, x@, body@, value@);
    let ghost k: nat = if y@.len() > m {
        0
    } else {
        (m + 1 - y@.len()) as nat
    };
    let mut n = z.as_str().unicode_len();
    while n <= m
        invariant
            n == z@.len(),
            y@.len() <= n,
            n <= m + 1 || n == y@.len(),
            k == (if y@.len() > m {
                0
            } else {
                (m + 1 - y@.len()) as nat
            }),
            target == y@ + Seq::new(k, |j: int| '0'),
            z@ == y@ + Seq::new((n - y@.len()) as nat, |j: int| '0'),
        decreases m + 1 - n,
    {
        z.append("0");
        proof {
            reveal_strlit("0");
            assert(z@ =~= y@ + Seq::new((n + 1 - y@.len()) as nat, |j: int| '0'));
        }
        n = z.as_str().unicode_len();
    }
    assert(z@ =~= target);
    z
}

/// The length of the longest name in `node`.
fn longest_name(node: &Rc<Node>) -> (r: usize)
    ensures
        r == longest(node@),
    decreases *node,
{
    match &**node {
        Node::Identifier(id) => id.name.as_str().unicode_len(),
        Node::Application(app) => {
            let a = longest_name(&app.lhs);
            let b = longest_name(&app.rhs);
            if a >= b {
                a
            } else {
                b
            }
        },
        Node::Abstraction(abs) => {
            let a = abs.param.as_str().unicode_len();
            let b = longest_name(&abs.body);
            if a >= b {
                a
            } else {
                b
            }
        },
    }
}

fn is_free(name: &str, node: &Rc<Node>) -> (r: bool)
    ensures
        r == free_in(name@, node@),
    decreases *node,
{
    match &**node {
        Node::Identifier(id) => same_name(id.name.as_str(), name),
        Node::Abstraction(abs) => !same_name(abs.param.as_str(), name) && is_free(name, &abs.body),
        Node::Application(app) => is_free(name, &app.lhs) || is_free(name, &app.rhs),
    }
}

/// Whether two names hold the same characters.
fn same_name(a: &str, b: &str) -> (r: bool)
    ensures
        r == (a@ == b@),
{
    let n = a.unicode_len();
    if n != b.unicode_len() {
        return false;
    }
    let mut i: usize = 0;
    while i < n
        invariant
            n == a@.len(),
            n == b@.len(),
            i <= n,
            a@.subrange(0, i as int) == b@.subrange(0, i as int),
        decreases n - i,
    {
        if a.get_char(i) != b.get_char(i) {
            return false;
        }
        assert(a@.subrange(0, i + 1) =~= a@.subrange(0, i as int).push(a@[i as int]));
        assert(b@.subrange(0, i + 1) =~= b@.subrange(0, i as int).push(b@[i as int]));
        i = i + 1;
    }
    assert(a@ =~= a@.subrange(0, n as int));
    assert(b@ =~= b@.subrange(0, n as int));
    true
}

} // verus!
