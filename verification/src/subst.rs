//! Free-variable analysis and capture-avoiding substitution.
//!
//! The model of substitution, `subst_gas`, carries a gas parameter so that the
//! recursion is visibly bounded: the renaming step substitutes through a body
//! that is not a subterm of the input, but renaming preserves the node count,
//! so a gas of `term_size(t)` always suffices (`lemma_subst_gas_ok`).

use vstd::prelude::*;
use crate::term::{Term, TermX, term_view, term_size, clone_term};
use crate::names::{str_set, fresh_name, fresh_var, contains_name, lemma_str_set_push};

verus! {

/// The set of identifiers occurring free in a term: binders subtract their
/// parameter from the body's free set.
pub open spec fn fv(t: TermX) -> Set<Seq<char>>
    decreases t,
{
    match t {
        TermX::Var(x) => Set::empty().insert(x),
        TermX::Const(_) => Set::empty(),
        TermX::Abs(x, body) => fv(*body).remove(x),
        TermX::App(f, a) => fv(*f).union(fv(*a)),
        TermX::NonlinearAbs(x, body) => fv(*body).remove(x),
        TermX::Nonlinear(inner) => fv(*inner),
    }
}

/// Computes the free variables of a term, as a list whose name set is `fv`.
pub fn free_vars(t: &Term) -> (v: Vec<String>)
    ensures
        str_set(v@) == fv(t@),
    decreases t,
{
    match t {
        Term::Var(x) => {
            let mut v: Vec<String> = Vec::new();
            proof {
                assert(str_set(v@) =~= Set::empty());
                lemma_str_set_push(v@, *x);
            }
            v.push(x.clone());
            proof {
                assert(v@ =~= Seq::empty().push(*x));
                assert(str_set(v@) =~= fv(t@));
            }
            v
        },
        Term::Const(_) => {
            let v: Vec<String> = Vec::new();
            proof {
                assert(str_set(v@) =~= Set::empty());
            }
            v
        },
        Term::Abs(x, body) => {
            let inner = free_vars(&**body);
            let v = remove_name(&inner, x);
            proof {
                assert(str_set(v@) =~= fv(t@));
            }
            v
        },
        Term::NonlinearAbs(x, body) => {
            let inner = free_vars(&**body);
            let v = remove_name(&inner, x);
            proof {
                assert(str_set(v@) =~= fv(t@));
            }
            v
        },
        Term::App(f, a) => {
            let mut v = free_vars(&**f);
            let va = free_vars(&**a);
            let mut i: usize = 0;
            while i < va.len()
                invariant
                    i <= va.len(),
                    str_set(v@) == fv(term_view(&**f)).union(str_set(va@.subrange(0, i as int))),
                decreases va.len() - i,
            {
                proof {
                    lemma_str_set_push(v@, va@[i as int]);
                    assert(va@.subrange(0, i + 1) =~= va@.subrange(0, i as int).push(
                        va@[i as int],
                    ));
                    lemma_str_set_push(va@.subrange(0, i as int), va@[i as int]);
                }
                v.push(va[i].clone());
                i = i + 1;
                proof {
                    assert(str_set(v@) =~= fv(term_view(&**f)).union(
                        str_set(va@.subrange(0, i as int)),
                    ));
                }
            }
            proof {
                assert(va@.subrange(0, va@.len() as int) =~= va@);
                assert(str_set(v@) =~= fv(t@));
            }
            v
        },
        Term::Nonlinear(inner) => free_vars(&**inner),
    }
}

/// Returns the list without any occurrence of the given name.
fn remove_name(v: &Vec<String>, x: &String) -> (out: Vec<String>)
    ensures
        str_set(out@) == str_set(v@).remove(x@),
{
    let mut out: Vec<String> = Vec::new();
    let mut i: usize = 0;
    proof {
        assert(str_set(out@) =~= Set::empty());
    }
    while i < v.len()
        invariant
            i <= v.len(),
            str_set(out@) == str_set(v@.subrange(0, i as int)).remove(x@),
        decreases v.len() - i,
    {
        let ghost pre = out@;
        if !v[i].eq(x) {
            out.push(v[i].clone());
            proof {
                lemma_str_set_push(pre, v@[i as int]);
            }
        }
        proof {
            assert(v@.subrange(0, i + 1) =~= v@.subrange(0, i as int).push(v@[i as int]));
            lemma_str_set_push(v@.subrange(0, i as int), v@[i as int]);
            assert(str_set(out@) =~= str_set(v@.subrange(0, i + 1)).remove(x@));
        }
        i = i + 1;
    }
    proof {
        assert(v@.subrange(0, v@.len() as int) =~= v@);
    }
    out
}

/// Capture-avoiding substitution of `s` for the free occurrences of `x` in
/// `t`, bounded by `gas`: a binder whose parameter occurs free in `s` is
/// renamed to a fresh name through its body before the substitution goes on.
pub open spec fn subst_gas(t: TermX, x: Seq<char>, s: TermX, gas: nat) -> Option<TermX>
    decreases gas,
{
    if gas == 0 {
        None
    } else {
        match t {
            TermX::Var(y) => Some(
                if y == x {
                    s
                } else {
                    t
                },
            ),
            TermX::Const(_) => Some(t),
            TermX::App(f, a) => {
                match (subst_gas(*f, x, s, (gas - 1) as nat), subst_gas(*a, x, s, (gas - 1) as nat)) {
                    (Some(f2), Some(a2)) => Some(TermX::App(Box::new(f2), Box::new(a2))),
                    _ => None,
                }
            },
            TermX::Nonlinear(inner) => {
                match subst_gas(*inner, x, s, (gas - 1) as nat) {
                    Some(i2) => Some(TermX::Nonlinear(Box::new(i2))),
                    None => None,
                }
            },
            TermX::Abs(y, body) => {
                if y == x {
                    Some(t)
                } else if fv(s).contains(y) {
                    let f = fresh_name(y, fv(*body).union(fv(s)));
                    match subst_gas(*body, y, TermX::Var(f), (gas - 1) as nat) {
                        Some(renamed) => {
                            match subst_gas(renamed, x, s, (gas - 1) as nat) {
                                Some(b2) => Some(TermX::Abs(f, Box::new(b2))),
                                None => None,
                            }
                        },
                        None => None,
                    }
                } else {
                    match subst_gas(*body, x, s, (gas - 1) as nat) {
                        Some(b2) => Some(TermX::Abs(y, Box::new(b2))),
                        None => None,
                    }
                }
            },
            TermX::NonlinearAbs(y, body) => {
                if y == x {
                    Some(t)
                } else if fv(s).contains(y) {
                    let f = fresh_name(y, fv(*body).union(fv(s)));
                    match subst_gas(*body, y, TermX::Var(f), (gas - 1) as nat) {
                        Some(renamed) => {
                            match subst_gas(renamed, x, s, (gas - 1) as nat) {
                                Some(b2) => Some(TermX::NonlinearAbs(f, Box::new(b2))),
                                None => None,
                            }
                        },
                        None => None,
                    }
                } else {
                    match subst_gas(*body, x, s, (gas - 1) as nat) {
                        Some(b2) => Some(TermX::NonlinearAbs(y, Box::new(b2))),
                        None => None,
                    }
                }
            },
        }
    }
}

/// A gas of `term_size(t)` always suffices, and substituting a variable for a
/// variable preserves the node count.
pub proof fn lemma_subst_gas_ok(t: TermX, x: Seq<char>, s: TermX, gas: nat)
    requires
        gas >= term_size(t),
    ensures
        subst_gas(t, x, s, gas) is Some,
        s is Var ==> term_size(subst_gas(t, x, s, gas)->Some_0) == term_size(t),
    decreases gas,
{
    match t {
        TermX::Var(_) => {},
        TermX::Const(_) => {},
        TermX::App(f, a) => {
            lemma_subst_gas_ok(*f, x, s, (gas - 1) as nat);
            lemma_subst_gas_ok(*a, x, s, (gas - 1) as nat);
        },
        TermX::Nonlinear(inner) => {
            lemma_subst_gas_ok(*inner, x, s, (gas - 1) as nat);
        },
        TermX::Abs(y, body) => {
            if y == x {
            } else if fv(s).contains(y) {
                let f = fresh_name(y, fv(*body).union(fv(s)));
                lemma_subst_gas_ok(*body, y, TermX::Var(f), (gas - 1) as nat);
                let renamed = subst_gas(*body, y, TermX::Var(f), (gas - 1) as nat)->Some_0;
                lemma_subst_gas_ok(renamed, x, s, (gas - 1) as nat);
            } else {
                lemma_subst_gas_ok(*body, x, s, (gas - 1) as nat);
            }
        },
        TermX::NonlinearAbs(y, body) => {
            if y == x {
            } else if fv(s).contains(y) {
                let f = fresh_name(y, fv(*body).union(fv(s)));
                lemma_subst_gas_ok(*body, y, TermX::Var(f), (gas - 1) as nat);
                let renamed = subst_gas(*body, y, TermX::Var(f), (gas - 1) as nat)->Some_0;
                lemma_subst_gas_ok(renamed, x, s, (gas - 1) as nat);
            } else {
                lemma_subst_gas_ok(*body, x, s, (gas - 1) as nat);
            }
        },
    }
}

/// The result does not depend on the gas, once the gas is large enough.
pub proof fn lemma_subst_gas_eq(t: TermX, x: Seq<char>, s: TermX, g1: nat, g2: nat)
    requires
        g1 >= term_size(t),
        g2 >= term_size(t),
    ensures
        subst_gas(t, x, s, g1) == subst_gas(t, x, s, g2),
    decreases g1,
{
    match t {
        TermX::Var(_) => {},
        TermX::Const(_) => {},
        TermX::App(f, a) => {
            lemma_subst_gas_eq(*f, x, s, (g1 - 1) as nat, (g2 - 1) as nat);
            lemma_subst_gas_eq(*a, x, s, (g1 - 1) as nat, (g2 - 1) as nat);
        },
        TermX::Nonlinear(inner) => {
            lemma_subst_gas_eq(*inner, x, s, (g1 - 1) as nat, (g2 - 1) as nat);
        },
        TermX::Abs(y, body) => {
            if y == x {
            } else if fv(s).contains(y) {
                let f = fresh_name(y, fv(*body).union(fv(s)));
                lemma_subst_gas_ok(*body, y, TermX::Var(f), (g1 - 1) as nat);
                lemma_subst_gas_ok(*body, y, TermX::Var(f), (g2 - 1) as nat);
                lemma_subst_gas_eq(*body, y, TermX::Var(f), (g1 - 1) as nat, (g2 - 1) as nat);
                let renamed = subst_gas(*body, y, TermX::Var(f), (g1 - 1) as nat)->Some_0;
                lemma_subst_gas_eq(renamed, x, s, (g1 - 1) as nat, (g2 - 1) as nat);
            } else {
                lemma_subst_gas_eq(*body, x, s, (g1 - 1) as nat, (g2 - 1) as nat);
            }
        },
        TermX::NonlinearAbs(y, body) => {
            if y == x {
            } else if fv(s).contains(y) {
                let f = fresh_name(y, fv(*body).union(fv(s)));
                lemma_subst_gas_ok(*body, y, TermX::Var(f), (g1 - 1) as nat);
                lemma_subst_gas_ok(*body, y, TermX::Var(f), (g2 - 1) as nat);
                lemma_subst_gas_eq(*body, y, TermX::Var(f), (g1 - 1) as nat, (g2 - 1) as nat);
                let renamed = subst_gas(*body, y, TermX::Var(f), (g1 - 1) as nat)->Some_0;
                lemma_subst_gas_eq(renamed, x, s, (g1 - 1) as nat, (g2 - 1) as nat);
            } else {
                lemma_subst_gas_eq(*body, x, s, (g1 - 1) as nat, (g2 - 1) as nat);
            }
        },
    }
}

proof fn lemma_subst_gas_fv(t: TermX, x: Seq<char>, s: TermX, gas: nat)
    requires
        gas >= term_size(t),
    ensures
        subst_gas(t, x, s, gas) is Some,
        fv(subst_gas(t, x, s, gas)->Some_0).subset_of(fv(t).remove(x).union(fv(s))),
    decreases gas,
{
    lemma_subst_gas_ok(t, x, s, gas);
    match t {
        TermX::Var(_) => {},
        TermX::Const(_) => {},
        TermX::App(f, a) => {
            lemma_subst_gas_fv(*f, x, s, (gas - 1) as nat);
            lemma_subst_gas_fv(*a, x, s, (gas - 1) as nat);
        },
        TermX::Nonlinear(inner) => {
            lemma_subst_gas_fv(*inner, x, s, (gas - 1) as nat);
        },
        TermX::Abs(y, body) => {
            if y == x {
            } else if fv(s).contains(y) {
                let f = fresh_name(y, fv(*body).union(fv(s)));
                lemma_subst_gas_fv(*body, y, TermX::Var(f), (gas - 1) as nat);
                let renamed = subst_gas(*body, y, TermX::Var(f), (gas - 1) as nat)->Some_0;
                lemma_subst_gas_ok(*body, y, TermX::Var(f), (gas - 1) as nat);
                lemma_subst_gas_fv(renamed, x, s, (gas - 1) as nat);
                let b2 = subst_gas(renamed, x, s, (gas - 1) as nat)->Some_0;
                assert(fv(TermX::Var(f)) =~= Set::empty().insert(f));
                assert forall|e: Seq<char>| fv(b2).remove(f).contains(e) implies fv(
                    t,
                ).remove(x).union(fv(s)).contains(e) by {
                    if !fv(s).contains(e) {
                        assert(fv(renamed).contains(e));
                        assert(fv(*body).remove(y).contains(e));
                    }
                }
            } else {
                lemma_subst_gas_fv(*body, x, s, (gas - 1) as nat);
            }
        },
        TermX::NonlinearAbs(y, body) => {
            if y == x {
            } else if fv(s).contains(y) {
                let f = fresh_name(y, fv(*body).union(fv(s)));
                lemma_subst_gas_fv(*body, y, TermX::Var(f), (gas - 1) as nat);
                let renamed = subst_gas(*body, y, TermX::Var(f), (gas - 1) as nat)->Some_0;
                lemma_subst_gas_ok(*body, y, TermX::Var(f), (gas - 1) as nat);
                lemma_subst_gas_fv(renamed, x, s, (gas - 1) as nat);
                let b2 = subst_gas(renamed, x, s, (gas - 1) as nat)->Some_0;
                assert(fv(TermX::Var(f)) =~= Set::empty().insert(f));
                assert forall|e: Seq<char>| fv(b2).remove(f).contains(e) implies fv(
                    t,
                ).remove(x).union(fv(s)).contains(e) by {
                    if !fv(s).contains(e) {
                        assert(fv(renamed).contains(e));
                        assert(fv(*body).remove(y).contains(e));
                    }
                }
            } else {
                lemma_subst_gas_fv(*body, x, s, (gas - 1) as nat);
            }
        },
    }
}

proof fn lemma_subst_gas_var_same(t: TermX, x: Seq<char>, gas: nat)
    requires
        gas >= term_size(t),
    ensures
        subst_gas(t, x, TermX::Var(x), gas) == Some(t),
    decreases gas,
{
    match t {
        TermX::Var(_) => {},
        TermX::Const(_) => {},
        TermX::App(f, a) => {
            lemma_subst_gas_var_same(*f, x, (gas - 1) as nat);
            lemma_subst_gas_var_same(*a, x, (gas - 1) as nat);
        },
        TermX::Nonlinear(inner) => {
            lemma_subst_gas_var_same(*inner, x, (gas - 1) as nat);
        },
        TermX::Abs(y, body) => {
            if y != x {
                assert(!fv(TermX::Var(x)).contains(y));
                lemma_subst_gas_var_same(*body, x, (gas - 1) as nat);
            }
        },
        TermX::NonlinearAbs(y, body) => {
            if y != x {
                assert(!fv(TermX::Var(x)).contains(y));
                lemma_subst_gas_var_same(*body, x, (gas - 1) as nat);
            }
        },
    }
}

/// Substitution is capture-avoiding: every variable free in `subst(t, x, s)`
/// is either free in `t` and different from `x`, or free in `s`.
pub proof fn lemma_subst_capture_avoiding(t: TermX, x: Seq<char>, s: TermX)
    ensures
        fv(spec_subst(t, x, s)).subset_of(fv(t).remove(x).union(fv(s))),
{
    lemma_subst_gas_fv(t, x, s, term_size(t));
}

/// Substituting a variable for itself changes nothing.
pub proof fn lemma_subst_var_identity(t: TermX, x: Seq<char>)
    ensures
        spec_subst(t, x, TermX::Var(x)) == t,
{
    lemma_subst_gas_var_same(t, x, term_size(t));
}

/// The model of substitution: `subst_gas` run with enough gas.
pub open spec fn spec_subst(t: TermX, x: Seq<char>, s: TermX) -> TermX {
    match subst_gas(t, x, s, term_size(t)) {
        Some(r) => r,
        None => t,
    }
}

/// Substitutes `s` for the free occurrences of `x` in `t`, renaming binders
/// where needed so that no free variable of `s` is captured.
pub fn subst(t: &Term, x: &String, s: &Term) -> (res: Term)
    ensures
        res@ == spec_subst(t@, x@, s@),
    decreases term_size(t@),
{
    proof {
        lemma_subst_gas_ok(t@, x@, s@, term_size(t@));
    }
    match t {
        Term::Var(y) => {
            if y.eq(x) {
                clone_term(s)
            } else {
                clone_term(t)
            }
        },
        Term::Const(_) => clone_term(t),
        Term::App(f, a) => {
            let f2 = subst(&**f, x, s);
            let a2 = subst(&**a, x, s);
            proof {
                lemma_subst_gas_eq(f@, x@, s@, term_size(f@), (term_size(t@) - 1) as nat);
                lemma_subst_gas_eq(a@, x@, s@, term_size(a@), (term_size(t@) - 1) as nat);
                lemma_subst_gas_ok(f@, x@, s@, term_size(f@));
                lemma_subst_gas_ok(a@, x@, s@, term_size(a@));
            }
            Term::App(Box::new(f2), Box::new(a2))
        },
        Term::Nonlinear(inner) => {
            let i2 = subst(&**inner, x, s);
            proof {
                lemma_subst_gas_eq(inner@, x@, s@, term_size(inner@), (term_size(t@) - 1) as nat);
                lemma_subst_gas_ok(inner@, x@, s@, term_size(inner@));
            }
            Term::Nonlinear(Box::new(i2))
        },
        Term::Abs(y, body) => {
            if y.eq(x) {
                clone_term(t)
            } else {
                let fv_s = free_vars(s);
                if contains_name(&fv_s, y) {
                    let mut used = free_vars(&**body);
                    let mut i: usize = 0;
                    while i < fv_s.len()
                        invariant
                            i <= fv_s.len(),
                            str_set(used@) == fv(term_view(&**body)).union(
                                str_set(fv_s@.subrange(0, i as int)),
                            ),
                        decreases fv_s.len() - i,
                    {
                        proof {
                            lemma_str_set_push(used@, fv_s@[i as int]);
                            assert(fv_s@.subrange(0, i + 1) =~= fv_s@.subrange(
                                0,
                                i as int,
                            ).push(fv_s@[i as int]));
                            lemma_str_set_push(fv_s@.subrange(0, i as int), fv_s@[i as int]);
                        }
                        used.push(fv_s[i].clone());
                        i = i + 1;
                    }
                    proof {
                        assert(fv_s@.subrange(0, fv_s@.len() as int) =~= fv_s@);
                        assert(str_set(used@) =~= fv(term_view(&**body)).union(fv(s@)));
                    }
                    let fresh = fresh_var(y.as_str(), &used);
                    let renamed = subst(&**body, y, &Term::Var(fresh.clone()));
                    proof {
                        lemma_subst_gas_ok(body@, y@, TermX::Var(fresh@), term_size(body@));
                        lemma_subst_gas_eq(
                            body@,
                            y@,
                            TermX::Var(fresh@),
                            term_size(body@),
                            (term_size(t@) - 1) as nat,
                        );
                    }
                    let res_body = subst(&renamed, x, s);
                    proof {
                        lemma_subst_gas_eq(
                            renamed@,
                            x@,
                            s@,
                            term_size(renamed@),
                            (term_size(t@) - 1) as nat,
                        );
                    }
                    Term::Abs(fresh, Box::new(res_body))
                } else {
                    let b2 = subst(&**body, x, s);
                    proof {
                        lemma_subst_gas_eq(
                            body@,
                            x@,
                            s@,
                            term_size(body@),
                            (term_size(t@) - 1) as nat,
                        );
                    }
                    Term::Abs(y.clone(), Box::new(b2))
                }
            }
        },
        Term::NonlinearAbs(y, body) => {
            if y.eq(x) {
                clone_term(t)
            } else {
                let fv_s = free_vars(s);
                if contains_name(&fv_s, y) {
                    let mut used = free_vars(&**body);
                    let mut i: usize = 0;
                    while i < fv_s.len()
                        invariant
                            i <= fv_s.len(),
                            str_set(used@) == fv(term_view(&**body)).union(
                                str_set(fv_s@.subrange(0, i as int)),
                            ),
                        decreases fv_s.len() - i,
                    {
                        proof {
                            lemma_str_set_push(used@, fv_s@[i as int]);
                            assert(fv_s@.subrange(0, i + 1) =~= fv_s@.subrange(
                                0,
                                i as int,
                            ).push(fv_s@[i as int]));
                            lemma_str_set_push(fv_s@.subrange(0, i as int), fv_s@[i as int]);
                        }
                        used.push(fv_s[i].clone());
                        i = i + 1;
                    }
                    proof {
                        assert(fv_s@.subrange(0, fv_s@.len() as int) =~= fv_s@);
                        assert(str_set(used@) =~= fv(term_view(&**body)).union(fv(s@)));
                    }
                    let fresh = fresh_var(y.as_str(), &used);
                    let renamed = subst(&**body, y, &Term::Var(fresh.clone()));
                    proof {
                        lemma_subst_gas_ok(body@, y@, TermX::Var(fresh@), term_size(body@));
                        lemma_subst_gas_eq(
                            body@,
                            y@,
                            TermX::Var(fresh@),
                            term_size(body@),
                            (term_size(t@) - 1) as nat,
                        );
                    }
                    let res_body = subst(&renamed, x, s);
                    proof {
                        lemma_subst_gas_eq(
                            renamed@,
                            x@,
                            s@,
                            term_size(renamed@),
                            (term_size(t@) - 1) as nat,
                        );
                    }
                    Term::NonlinearAbs(fresh, Box::new(res_body))
                } else {
                    let b2 = subst(&**body, x, s);
                    proof {
                        lemma_subst_gas_eq(
                            body@,
                            x@,
                            s@,
                            term_size(body@),
                            (term_size(t@) - 1) as nat,
                        );
                    }
                    Term::NonlinearAbs(y.clone(), Box::new(b2))
                }
            }
        },
    }
}

} // verus!
