use std::rc::Rc;
use vstd::prelude::*;

verus! {

/// The mathematical value of a term: names are character sequences.
pub enum Term {
    Var(Seq<char>),
    Lam(Seq<char>, Box<Term>),
    App(Box<Term>, Box<Term>),
}

/// Nodes in the abstract syntax tree.
///
/// Application: t1 t2
/// Abstraction: λx. t1
/// Identifier:  x
#[derive(Debug, PartialEq)]
pub enum Node {
    Abstraction(Box<Abstraction>),
    Application(Box<Application>),
    Identifier(Identifier),
}

/// An abstraction of a lambda function, containing a parameter and a body.
#[derive(Debug, PartialEq)]
pub struct Abstraction {
    pub param: String,
    pub body: Rc<Node>,
}

/// A function applied to an argument.
#[derive(Debug, PartialEq)]
pub struct Application {
    pub lhs: Rc<Node>,
    pub rhs: Rc<Node>,
}

/// A reference to a variable.
#[derive(Debug, PartialEq)]
pub struct Identifier {
    pub name: String,
}

/// The term that a node stands for.
pub open spec fn term_of(n: Node) -> Term
    decreases n,
{
    match n {
        Node::Identifier(id) => Term::Var(id.name@),
        Node::Abstraction(a) => Term::Lam(a.param@, Box::new(term_of(*a.body))),
        Node::Application(a) => Term::App(Box::new(term_of(*a.lhs)), Box::new(term_of(*a.rhs))),
    }
}

impl View for Node {
    type V = Term;

    open spec fn view(&self) -> Term {
        term_of(*self)
    }
}

/// Canonical text of a term: `(λp. body)`, `lhs rhs`, or the name.
pub open spec fn render(t: Term) -> Seq<char>
    decreases t,
{
    match t {
        Term::Var(x) => x,
        Term::Lam(p, b) => seq!['(', 'λ'] + p + seq!['.', ' '] + render(*b) + seq![')'],
        Term::App(l, r) => render(*l) + seq![' '] + render(*r),
    }
}

impl Node {
    /// The canonical text of the term: `(λp. body)`, `lhs rhs`, or the name.
    pub fn to_string(&self) -> (r: String)
        ensures
            r@ == render(self@),
    {
        let mut out = String::from_str("");
        proof {
            reveal_strlit("");
            assert(out@ =~= Seq::<char>::empty());
        }
        self.write_to(&mut out);
        out
    }

    fn write_to(&self, out: &mut String)
        ensures
            final(out)@ == old(out)@ + render(self@),
        decreases *self,
    {
        match self {
            Node::Abstraction(abs) => {
                out.append("(λ");
                out.append(abs.param.as_str());
                out.append(". ");
                abs.body.write_to(out);
                out.append(")");
                proof {
                    reveal_strlit("(λ");
                    reveal_strlit(". ");
                    reveal_strlit(")");
                    assert(final(out)@ =~= old(out)@ + render(self@));
                }
            },
            Node::Application(app) => {
                app.lhs.write_to(out);
                out.append(" ");
                app.rhs.write_to(out);
                proof {
                    reveal_strlit(" ");
                    assert(final(out)@ =~= old(out)@ + render(self@));
                }
            },
            Node::Identifier(id) => {
                out.append(id.name.as_str());
            },
        }
    }
}

} // verus!
