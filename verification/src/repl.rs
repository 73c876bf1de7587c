//! The named-term environment of the read-eval-print loop, and the
//! expansion of names into terms.
//!
//! Binding is by substitution: a named definition is expanded into every
//! term that references the name before reduction begins; the evaluator
//! never dereferences the environment at runtime.  A name bound by a binder
//! in the term shadows its environment entry.

use vstd::prelude::*;
use crate::term::{Term, TermX, clone_term};
use crate::names::{str_set, lemma_str_set_push};

verus! {

/// The environment: named terms, in insertion order, one entry per name.
#[derive(Debug)]
pub struct Repl {
    env: Vec<(String, Term)>,
}

/// The model of an environment.
pub open spec fn env_view(v: Seq<(String, Term)>) -> Seq<(Seq<char>, TermX)> {
    Seq::new(v.len(), |i: int| (v[i].0@, v[i].1@))
}

impl View for Repl {
    type V = Seq<(Seq<char>, TermX)>;

    closed spec fn view(&self) -> Seq<(Seq<char>, TermX)> {
        env_view(self.env@)
    }
}

/// The index of the entry bound to a name, or the length when none is.
pub open spec fn env_find(e: Seq<(Seq<char>, TermX)>, x: Seq<char>) -> int
    decreases e.len(),
{
    if e.len() == 0 {
        0
    } else if e[0].0 == x {
        0
    } else {
        1 + env_find(e.drop_first(), x)
    }
}

/// The term bound to a name, if any.
pub open spec fn env_lookup(e: Seq<(Seq<char>, TermX)>, x: Seq<char>) -> Option<TermX> {
    if env_find(e, x) < e.len() {
        Some(e[env_find(e, x)].1)
    } else {
        None
    }
}

/// What storing a binding does: an existing entry for the name is replaced
/// in place, a new name is appended.
pub open spec fn env_put(e: Seq<(Seq<char>, TermX)>, x: Seq<char>, t: TermX) -> Seq<
    (Seq<char>, TermX),
> {
    if env_find(e, x) < e.len() {
        e.update(env_find(e, x), (x, t))
    } else {
        e.push((x, t))
    }
}

pub proof fn lemma_env_find(e: Seq<(Seq<char>, TermX)>, x: Seq<char>)
    ensures
        0 <= env_find(e, x) <= e.len(),
        env_find(e, x) < e.len() ==> e[env_find(e, x)].0 == x,
        forall|j: int| 0 <= j < env_find(e, x) ==> e[j].0 != x,
    decreases e.len(),
{
    if e.len() > 0 && e[0].0 != x {
        lemma_env_find(e.drop_first(), x);
        assert(forall|j: int| 1 <= j < e.len() ==> e[j] == e.drop_first()[j - 1]);
    }
}

proof fn lemma_env_find_at(e: Seq<(Seq<char>, TermX)>, x: Seq<char>, i: int)
    requires
        0 <= i <= e.len(),
        forall|j: int| 0 <= j < i ==> e[j].0 != x,
        i < e.len() ==> e[i].0 == x,
    ensures
        env_find(e, x) == i,
    decreases e.len(),
{
    if e.len() > 0 && i > 0 {
        assert(e[0].0 != x);
        lemma_env_find_at(e.drop_first(), x, i - 1);
    }
}

/// The expansion of environment names in a term: a free occurrence of a
/// bound name is replaced by its term; a name shadowed by an enclosing
/// binder is left alone.
pub open spec fn spec_populate(t: TermX, e: Seq<(Seq<char>, TermX)>, bound: Set<Seq<char>>) -> TermX
    decreases t,
{
    match t {
        TermX::Var(x) => if bound.contains(x) {
            t
        } else {
            match env_lookup(e, x) {
                Some(u) => u,
                None => t,
            }
        },
        TermX::Const(_) => t,
        TermX::Abs(x, body) => TermX::Abs(x, Box::new(spec_populate(*body, e, bound.insert(x)))),
        TermX::NonlinearAbs(x, body) => TermX::NonlinearAbs(
            x,
            Box::new(spec_populate(*body, e, bound.insert(x))),
        ),
        TermX::App(f, a) => TermX::App(
            Box::new(spec_populate(*f, e, bound)),
            Box::new(spec_populate(*a, e, bound)),
        ),
        TermX::Nonlinear(inner) => TermX::Nonlinear(Box::new(spec_populate(*inner, e, bound))),
    }
}

impl Repl {
    /// A fresh environment with no bindings.
    pub fn new() -> (r: Repl)
        ensures
            r@ =~= Seq::<(Seq<char>, TermX)>::empty(),
    {
        Repl { env: Vec::new() }
    }

    /// Stores a binding: replaces the entry for the name when one exists,
    /// appends otherwise.
    pub fn put_env(&mut self, name: String, term: Term)
        ensures
            final(self)@ == env_put(old(self)@, name@, term@),
    {
        let ghost ev = env_view(self.env@);
        let mut j: usize = 0;
        let n = self.env.len();
        while j < n
            invariant
                j <= n,
                n == self.env@.len(),
                ev == env_view(self.env@),
                forall|p: int| 0 <= p < j ==> ev[p].0 != name@,
            ensures
                j <= n,
                n == self.env@.len(),
                ev == env_view(self.env@),
                forall|p: int| 0 <= p < j ==> ev[p].0 != name@,
                j < n ==> ev[j as int].0 == name@,
            decreases n - j,
        {
            if self.env[j].0.eq(&name) {
                proof {
                    assert(ev[j as int] == (self.env@[j as int].0@, self.env@[j as int].1@));
                }
                break ;
            }
            proof {
                assert(ev[j as int] == (self.env@[j as int].0@, self.env@[j as int].1@));
            }
            j = j + 1;
        }
        proof {
            lemma_env_find_at(ev, name@, j as int);
        }
        if j < n {
            let entry = (name, term);
            let ghost entv = (entry.0@, entry.1@);
            self.env[j] = entry;
            proof {
                assert(env_view(self.env@) =~= ev.update(j as int, entv));
            }
        } else {
            let ghost namev = name@;
            let ghost termv = term@;
            self.env.push((name, term));
            proof {
                assert(env_view(self.env@) =~= ev.push((namev, termv)));
            }
        }
    }

    /// The term bound to a name, if any.
    pub fn get_env(&self, name: &String) -> (r: Option<Term>)
        ensures
            match r {
                Some(t) => env_lookup(self@, name@) == Some(t@),
                None => env_lookup(self@, name@) is None,
            },
    {
        let ghost ev = self@;
        let mut j: usize = 0;
        let n = self.env.len();
        while j < n
            invariant
                j <= n,
                n == self.env@.len(),
                ev == env_view(self.env@),
                forall|p: int| 0 <= p < j ==> ev[p].0 != name@,
            decreases n - j,
        {
            proof {
                assert(ev[j as int] == (self.env@[j as int].0@, self.env@[j as int].1@));
            }
            if self.env[j].0.eq(name) {
                proof {
                    lemma_env_find_at(ev, name@, j as int);
                }
                return Some(clone_term(&self.env[j].1));
            }
            j = j + 1;
        }
        proof {
            lemma_env_find_at(ev, name@, n as int);
        }
        None
    }

    /// Clears every binding.
    pub fn reset_env(&mut self)
        ensures
            final(self)@ =~= Seq::<(Seq<char>, TermX)>::empty(),
    {
        self.env.clear();
    }

    /// The bindings, in insertion order.
    pub fn entries(&self) -> (r: &Vec<(String, Term)>)
        ensures
            env_view(r@) == self@,
    {
        &self.env
    }

    /// The number of bindings.
    pub fn len(&self) -> (n: usize)
        ensures
            n == self@.len(),
    {
        self.env.len()
    }
}

/// Replaces the free occurrences of environment names in a term by their
/// bound terms; names shadowed by binders are left alone.
pub fn populate_term(t: &Term, repl: &Repl) -> (res: Term)
    ensures
        res@ == spec_populate(t@, repl@, Set::empty()),
{
    let mut bound: Vec<String> = Vec::new();
    proof {
        assert(str_set(bound@) =~= Set::empty());
    }
    populate_rec(t, repl, &mut bound)
}

/// The recursive walk of the expansion; `bound` is the stack of binder
/// names in scope.
fn populate_rec(t: &Term, repl: &Repl, bound: &mut Vec<String>) -> (res: Term)
    ensures
        res@ == spec_populate(t@, repl@, str_set(old(bound)@)),
        final(bound)@ == old(bound)@,
    decreases t,
{
    match t {
        Term::Var(x) => {
            if contains_bound(bound, x) {
                clone_term(t)
            } else {
                match repl.get_env(x) {
                    Some(u) => u,
                    None => clone_term(t),
                }
            }
        },
        Term::Const(_) => clone_term(t),
        Term::Abs(x, body) => {
            let ghost pre = bound@;
            proof {
                lemma_str_set_push(bound@, *x);
            }
            bound.push(x.clone());
            let b2 = populate_rec(&**body, repl, bound);
            let popped = bound.pop();
            proof {
                assert(bound@ =~= pre);
            }
            Term::Abs(x.clone(), Box::new(b2))
        },
        Term::NonlinearAbs(x, body) => {
            let ghost pre = bound@;
            proof {
                lemma_str_set_push(bound@, *x);
            }
            bound.push(x.clone());
            let b2 = populate_rec(&**body, repl, bound);
            let popped = bound.pop();
            proof {
                assert(bound@ =~= pre);
            }
            Term::NonlinearAbs(x.clone(), Box::new(b2))
        },
        Term::App(f, a) => {
            let f2 = populate_rec(&**f, repl, bound);
            let a2 = populate_rec(&**a, repl, bound);
            Term::App(Box::new(f2), Box::new(a2))
        },
        Term::Nonlinear(inner) => {
            let i2 = populate_rec(&**inner, repl, bound);
            Term::Nonlinear(Box::new(i2))
        },
    }
}

/// Whether a name is on the binder stack.
fn contains_bound(v: &Vec<String>, x: &String) -> (r: bool)
    ensures
        r == str_set(v@).contains(x@),
{
    crate::names::contains_name(v, x)
}

} // verus!
