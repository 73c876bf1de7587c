//! The term tree of the calculus: syntactic forms, their mathematical model,
//! and the basic constructors.

use vstd::prelude::*;

verus! {

/// The constants of the calculus: basis kets, gates, and the measurement
/// operator.
#[derive(Debug, PartialEq, Eq)]
pub enum Const {
    /// A single-qubit computational-basis state: `false` is |0>, `true` is |1>.
    Ket(bool),
    /// A unitary gate named by its symbol (the fixed set is H, C and T).
    Gate(String),
    /// The measurement operator M.
    Meas,
}

/// The syntactic forms of terms.
#[derive(Debug, PartialEq, Eq)]
pub enum Term {
    /// A variable occurrence.
    Var(String),
    /// A constant.
    Const(Const),
    /// The linear lambda: its parameter must be used exactly once in the body.
    Abs(String, Box<Term>),
    /// An application of the first term to the second.
    App(Box<Term>, Box<Term>),
    /// The duplicable lambda: its parameter may be used any number of times,
    /// but only inside a `Nonlinear` suspension.
    NonlinearAbs(String, Box<Term>),
    /// The "bang" suspension marking a duplicable value.
    Nonlinear(Box<Term>),
}

/// The mathematical model of a constant, with gate symbols as character
/// sequences.
pub enum ConstX {
    Ket(bool),
    Gate(Seq<char>),
    Meas,
}

/// The mathematical model of a term, with names as character sequences.
/// Structural equality of models is the term equality of the calculus:
/// names are compared verbatim.
pub enum TermX {
    Var(Seq<char>),
    Const(ConstX),
    Abs(Seq<char>, Box<TermX>),
    App(Box<TermX>, Box<TermX>),
    NonlinearAbs(Seq<char>, Box<TermX>),
    Nonlinear(Box<TermX>),
}

impl View for Const {
    type V = ConstX;

    open spec fn view(&self) -> ConstX {
        match self {
            Const::Ket(b) => ConstX::Ket(*b),
            Const::Gate(g) => ConstX::Gate(g@),
            Const::Meas => ConstX::Meas,
        }
    }
}

/// The model of an executable term.
pub open spec fn term_view(t: &Term) -> TermX
    decreases t,
{
    match t {
        Term::Var(x) => TermX::Var(x@),
        Term::Const(c) => TermX::Const(c@),
        Term::Abs(x, body) => TermX::Abs(x@, Box::new(term_view(&**body))),
        Term::App(f, a) => TermX::App(Box::new(term_view(&**f)), Box::new(term_view(&**a))),
        Term::NonlinearAbs(x, body) => TermX::NonlinearAbs(x@, Box::new(term_view(&**body))),
        Term::Nonlinear(inner) => TermX::Nonlinear(Box::new(term_view(&**inner))),
    }
}

impl View for Term {
    type V = TermX;

    open spec fn view(&self) -> TermX {
        term_view(self)
    }
}

/// The number of nodes in a term: the measure for recursion over terms that
/// substitution and renaming preserve.
pub open spec fn term_size(t: TermX) -> nat
    decreases t,
{
    match t {
        TermX::Var(_) => 1,
        TermX::Const(_) => 1,
        TermX::Abs(_, body) => 1 + term_size(*body),
        TermX::App(f, a) => 1 + term_size(*f) + term_size(*a),
        TermX::NonlinearAbs(_, body) => 1 + term_size(*body),
        TermX::Nonlinear(inner) => 1 + term_size(*inner),
    }
}

/// Constructs a variable term.
pub fn var(name: &str) -> (t: Term)
    ensures
        t@ == TermX::Var(name@),
{
    Term::Var(name.to_owned())
}

/// Constructs a linear lambda.
pub fn abs(p: &str, body: Term) -> (t: Term)
    ensures
        t@ == TermX::Abs(p@, Box::new(body@)),
{
    Term::Abs(p.to_owned(), Box::new(body))
}

/// Constructs an application.
pub fn app(a: Term, b: Term) -> (t: Term)
    ensures
        t@ == TermX::App(Box::new(a@), Box::new(b@)),
{
    Term::App(Box::new(a), Box::new(b))
}

/// Constructs a gate constant.
pub fn gate(g: &str) -> (t: Term)
    ensures
        t@ == TermX::Const(ConstX::Gate(g@)),
{
    Term::Const(Const::Gate(g.to_owned()))
}

/// Constructs a ket constant.
pub fn ket(k: bool) -> (t: Term)
    ensures
        t@ == TermX::Const(ConstX::Ket(k)),
{
    Term::Const(Const::Ket(k))
}

/// Constructs the measurement operator.
pub fn meas() -> (t: Term)
    ensures
        t@ == TermX::Const(ConstX::Meas),
{
    Term::Const(Const::Meas)
}

/// Constructs a duplicable lambda.
pub fn nonlinear_abs(p: &str, body: Term) -> (t: Term)
    ensures
        t@ == TermX::NonlinearAbs(p@, Box::new(body@)),
{
    Term::NonlinearAbs(p.to_owned(), Box::new(body))
}

/// Constructs a bang suspension.
pub fn nonlinear(inner: Term) -> (t: Term)
    ensures
        t@ == TermX::Nonlinear(Box::new(inner@)),
{
    Term::Nonlinear(Box::new(inner))
}

/// The Church-pair encoding `\b. ((b t1) t2)`: the calculus has no native
/// pair constructor.
pub open spec fn pair_view(a: TermX, b: TermX) -> TermX {
    TermX::Abs(
        "b"@,
        Box::new(
            TermX::App(
                Box::new(TermX::App(Box::new(TermX::Var("b"@)), Box::new(a))),
                Box::new(b),
            ),
        ),
    )
}

/// Constructs the Church pair of two terms.
pub fn pair(t1: Term, t2: Term) -> (t: Term)
    ensures
        t@ == pair_view(t1@, t2@),
{
    abs("b", app(app(var("b"), t1), t2))
}

/// Clones a term; the copy has the same model.
pub fn clone_term(t: &Term) -> (res: Term)
    ensures
        res@ == t@,
    decreases t,
{
    match t {
        Term::Var(x) => Term::Var(x.clone()),
        Term::Const(Const::Ket(b)) => Term::Const(Const::Ket(*b)),
        Term::Const(Const::Gate(g)) => Term::Const(Const::Gate(g.clone())),
        Term::Const(Const::Meas) => Term::Const(Const::Meas),
        Term::Abs(x, body) => Term::Abs(x.clone(), Box::new(clone_term(&**body))),
        Term::App(f, a) => Term::App(Box::new(clone_term(&**f)), Box::new(clone_term(&**a))),
        Term::NonlinearAbs(x, body) => Term::NonlinearAbs(
            x.clone(),
            Box::new(clone_term(&**body)),
        ),
        Term::Nonlinear(inner) => Term::Nonlinear(Box::new(clone_term(&**inner))),
    }
}

impl Clone for Term {
    /// Clones a term; the copy has the same model.
    fn clone(&self) -> (res: Term)
        ensures
            res@ == self@,
    {
        clone_term(self)
    }
}

/// Decides term equality: names are compared verbatim.
pub fn term_eq(a: &Term, b: &Term) -> (r: bool)
    ensures
        r == (a@ == b@),
    decreases a,
{
    match (a, b) {
        (Term::Var(x), Term::Var(y)) => x.eq(y),
        (Term::Const(Const::Ket(p)), Term::Const(Const::Ket(q))) => p == q,
        (Term::Const(Const::Gate(g)), Term::Const(Const::Gate(h))) => g.eq(h),
        (Term::Const(Const::Meas), Term::Const(Const::Meas)) => true,
        (Term::Abs(x, tb), Term::Abs(y, ub)) => x.eq(y) && term_eq(&**tb, &**ub),
        (Term::App(f1, a1), Term::App(f2, a2)) => term_eq(&**f1, &**f2) && term_eq(&**a1, &**a2),
        (Term::NonlinearAbs(x, tb), Term::NonlinearAbs(y, ub)) => x.eq(y) && term_eq(&**tb, &**ub),
        (Term::Nonlinear(t1), Term::Nonlinear(t2)) => term_eq(&**t1, &**t2),
        _ => false,
    }
}

/// The model of `to_classical`: kets become the variables `true` and `false`;
/// everything else is kept, recursing through the structure.
pub open spec fn to_classical_view(t: TermX) -> TermX
    decreases t,
{
    match t {
        TermX::Const(ConstX::Ket(b)) => if b {
            TermX::Var("true"@)
        } else {
            TermX::Var("false"@)
        },
        TermX::Const(_) => t,
        TermX::Var(_) => t,
        TermX::Abs(x, body) => TermX::Abs(x, Box::new(to_classical_view(*body))),
        TermX::App(f, a) => TermX::App(
            Box::new(to_classical_view(*f)),
            Box::new(to_classical_view(*a)),
        ),
        TermX::NonlinearAbs(x, body) => TermX::NonlinearAbs(x, Box::new(to_classical_view(*body))),
        TermX::Nonlinear(inner) => TermX::Nonlinear(Box::new(to_classical_view(*inner))),
    }
}

impl Term {
    /// Replaces every ket by the corresponding classical variable, `true` for
    /// |1> and `false` for |0>.
    pub fn to_classical(self) -> (res: Term)
        ensures
            res@ == to_classical_view(self@),
        decreases self,
    {
        match self {
            Term::Const(Const::Ket(b)) => {
                if b {
                    var("true")
                } else {
                    var("false")
                }
            },
            Term::Const(_) => self,
            Term::Var(_) => self,
            Term::Abs(x, body) => Term::Abs(x, Box::new((*body).to_classical())),
            Term::App(f, a) => Term::App(
                Box::new((*f).to_classical()),
                Box::new((*a).to_classical()),
            ),
            Term::NonlinearAbs(x, body) => Term::NonlinearAbs(
                x,
                Box::new((*body).to_classical()),
            ),
            Term::Nonlinear(inner) => Term::Nonlinear(Box::new((*inner).to_classical())),
        }
    }
}

} // verus!
