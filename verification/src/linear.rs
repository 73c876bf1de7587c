//! The linearity checker: runs once on the whole term before evaluation, and
//! rejects programs that duplicate or discard quantum data.
//!
//! Bindings live on an association list used as a stack: a binder pushes its
//! entry, its body is checked, and the entry is popped, so an inner binding
//! of the same name shadows the outer one.  A variable bound by a linear
//! lambda carries a use count and must be used exactly once in its body; a
//! variable bound by a duplicable lambda carries no count.  A bang suspension
//! is checked against a snapshot: a linear count that strictly grows inside
//! the suspension is an error.

use vstd::prelude::*;
use crate::term::{Term, TermX, term_view, term_size};
use crate::names::{dec_digits, fmt_nat};

verus! {

/// How a bound variable may be used.
#[derive(Debug, Clone, Copy, PartialEq, Eq)]
pub enum VarKind {
    /// Bound by a linear lambda; carries the number of uses seen so far.
    Linear(usize),
    /// Bound by a duplicable lambda.
    Nonlinear,
}

/// The model of a binding kind, with an unbounded count.
pub enum VarKindX {
    Linear(nat),
    Nonlinear,
}

impl View for VarKind {
    type V = VarKindX;

    open spec fn view(&self) -> VarKindX {
        match self {
            VarKind::Linear(n) => VarKindX::Linear(*n as nat),
            VarKind::Nonlinear => VarKindX::Nonlinear,
        }
    }
}

/// The model of the binding stack.
pub open spec fn vars_view(v: Seq<(String, VarKind)>) -> Seq<(Seq<char>, VarKindX)> {
    Seq::new(v.len(), |i: int| (v[i].0@, v[i].1@))
}

/// The index of the innermost (latest) binding of a name, or -1 when the
/// name is unbound.
pub open spec fn rfind(s: Seq<(Seq<char>, VarKindX)>, x: Seq<char>) -> int
    decreases s.len(),
{
    if s.len() == 0 {
        -1
    } else if s.last().0 == x {
        s.len() - 1
    } else {
        rfind(s.drop_last(), x)
    }
}

pub proof fn lemma_rfind(s: Seq<(Seq<char>, VarKindX)>, x: Seq<char>)
    ensures
        -1 <= rfind(s, x) < s.len(),
        rfind(s, x) >= 0 ==> s[rfind(s, x)].0 == x,
        forall|j: int| rfind(s, x) < j < s.len() ==> s[j].0 != x,
    decreases s.len(),
{
    if s.len() > 0 && s.last().0 != x {
        lemma_rfind(s.drop_last(), x);
        assert(forall|j: int| 0 <= j < s.len() - 1 ==> s[j] == s.drop_last()[j]);
    }
}

/// The message for a linear variable that its lambda's body never uses.
pub open spec fn msg_unused(x: Seq<char>) -> Seq<char> {
    "linear variable "@ + x + " unused"@
}

/// The message for a linear variable used more than once.
pub open spec fn msg_used(x: Seq<char>, n: nat) -> Seq<char> {
    "linear variable "@ + x + " used "@ + dec_digits(n) + " times"@
}

/// The message for a linear variable whose count grew inside a bang.
pub open spec fn msg_bang(x: Seq<char>) -> Seq<char> {
    "linear variable "@ + x + " appears inside !"@
}

/// The outcome of a check: the updated binding stack, or the message of the
/// first violation.
pub enum ChkOut {
    Pass(Seq<(Seq<char>, VarKindX)>),
    Fail(Seq<char>),
}

/// The name of the first position whose linear count strictly grew from `v0`
/// to `v1`.
pub open spec fn first_grown(
    v0: Seq<(Seq<char>, VarKindX)>,
    v1: Seq<(Seq<char>, VarKindX)>,
    i: int,
) -> Option<Seq<char>>
    decreases v0.len() - i,
{
    if i < 0 || i >= v0.len() || i >= v1.len() {
        None
    } else if v0[i].1 matches VarKindX::Linear(n0) && v1[i].1 matches VarKindX::Linear(n1) && n1
        > n0 {
        Some(v0[i].0)
    } else {
        first_grown(v0, v1, i + 1)
    }
}

/// The linearity check: walks the term with lexical scoping and tracks, per
/// bound variable, how it may be used and how often it has been.
pub open spec fn wf_check(t: TermX, vars: Seq<(Seq<char>, VarKindX)>) -> ChkOut
    decreases t,
{
    match t {
        TermX::Var(x) => {
            let i = rfind(vars, x);
            if i >= 0 {
                match vars[i].1 {
                    VarKindX::Linear(n) => ChkOut::Pass(
                        vars.update(i, (x, VarKindX::Linear((n + 1) as nat))),
                    ),
                    VarKindX::Nonlinear => ChkOut::Pass(vars),
                }
            } else {
                ChkOut::Pass(vars)
            }
        },
        TermX::Const(_) => ChkOut::Pass(vars),
        TermX::App(f, a) => {
            match wf_check(*f, vars) {
                ChkOut::Pass(v1) => wf_check(*a, v1),
                ChkOut::Fail(m) => ChkOut::Fail(m),
            }
        },
        TermX::Abs(x, body) => {
            match wf_check(*body, vars.push((x, VarKindX::Linear(0)))) {
                ChkOut::Pass(v1) => {
                    match v1.last().1 {
                        VarKindX::Linear(n) => {
                            if n == 1 {
                                ChkOut::Pass(v1.drop_last())
                            } else if n == 0 {
                                ChkOut::Fail(msg_unused(x))
                            } else {
                                ChkOut::Fail(msg_used(x, n))
                            }
                        },
                        VarKindX::Nonlinear => ChkOut::Fail(msg_unused(x)),
                    }
                },
                ChkOut::Fail(m) => ChkOut::Fail(m),
            }
        },
        TermX::NonlinearAbs(x, body) => {
            match wf_check(*body, vars.push((x, VarKindX::Nonlinear))) {
                ChkOut::Pass(v1) => ChkOut::Pass(v1.drop_last()),
                ChkOut::Fail(m) => ChkOut::Fail(m),
            }
        },
        TermX::Nonlinear(inner) => {
            match wf_check(*inner, vars) {
                ChkOut::Pass(v1) => {
                    match first_grown(vars, v1, 0) {
                        Some(x) => ChkOut::Fail(msg_bang(x)),
                        None => ChkOut::Pass(vars),
                    }
                },
                ChkOut::Fail(m) => ChkOut::Fail(m),
            }
        },
    }
}

/// Whether every linear count on the stack is at most `b`.
pub open spec fn counts_le(s: Seq<(Seq<char>, VarKindX)>, b: int) -> bool {
    forall|i: int|
        0 <= i < s.len() ==> match #[trigger] s[i].1 {
            VarKindX::Linear(n) => n <= b,
            VarKindX::Nonlinear => true,
        }
}

/// A successful check keeps the stack's length, its names in place, and
/// grows each linear count by at most the size of the term.
pub proof fn lemma_wf_shape(t: TermX, vars: Seq<(Seq<char>, VarKindX)>, b: int)
    requires
        counts_le(vars, b),
        0 <= b,
    ensures
        wf_check(t, vars) matches ChkOut::Pass(v1) ==> v1.len() == vars.len() && counts_le(
            v1,
            b + term_size(t),
        ),
    decreases t,
{
    match t {
        TermX::Var(x) => {
            lemma_rfind(vars, x);
        },
        TermX::Const(_) => {},
        TermX::App(f, a) => {
            lemma_wf_shape(*f, vars, b);
            match wf_check(*f, vars) {
                ChkOut::Pass(v1) => {
                    lemma_wf_shape(*a, v1, b + term_size(*f));
                },
                ChkOut::Fail(_) => {},
            }
        },
        TermX::Abs(x, body) => {
            let pushed = vars.push((x, VarKindX::Linear(0)));
            lemma_wf_shape(*body, pushed, b);
        },
        TermX::NonlinearAbs(x, body) => {
            let pushed = vars.push((x, VarKindX::Nonlinear));
            lemma_wf_shape(*body, pushed, b);
        },
        TermX::Nonlinear(inner) => {
            lemma_wf_shape(*inner, vars, b);
        },
    }
}

/// Builds the message for an unused linear variable.
fn build_msg_unused(x: &String) -> (r: String)
    ensures
        r@ == msg_unused(x@),
{
    String::from_str("linear variable ").concat(x.as_str()).concat(" unused")
}

/// Builds the message for a linear variable used `n` times.
fn build_msg_used(x: &String, n: usize) -> (r: String)
    ensures
        r@ == msg_used(x@, n as nat),
{
    String::from_str("linear variable ").concat(x.as_str()).concat(" used ").concat(
        fmt_nat(n).as_str(),
    ).concat(" times")
}

/// Builds the message for a linear variable that appears inside a bang.
fn build_msg_bang(x: &String) -> (r: String)
    ensures
        r@ == msg_bang(x@),
{
    String::from_str("linear variable ").concat(x.as_str()).concat(" appears inside !")
}

/// Finds the innermost binding of a name on the stack.
fn rfind_exec(vars: &Vec<(String, VarKind)>, x: &String) -> (r: Option<usize>)
    ensures
        match r {
            Some(i) => i < vars@.len() && i as int == rfind(vars_view(vars@), x@),
            None => rfind(vars_view(vars@), x@) == -1,
        },
{
    let ghost vw = vars_view(vars@);
    let mut i: usize = vars.len();
    while i > 0
        invariant
            i <= vars@.len(),
            vw == vars_view(vars@),
            forall|j: int| i <= j < vars@.len() ==> vw[j].0 != x@,
        decreases i,
    {
        i = i - 1;
        if vars[i].0.eq(x) {
            proof {
                lemma_rfind(vw, x@);
                if rfind(vw, x@) != i as int {
                    assert(vw[i as int].0 == x@);
                }
            }
            return Some(i);
        }
    }
    proof {
        lemma_rfind(vw, x@);
        if rfind(vw, x@) >= 0 {
            assert(vw[rfind(vw, x@)].0 == x@);
        }
    }
    None
}

/// The recursive walk of the checker.  Mirrors `wf_check`; the ghost bound
/// keeps the use counts within the machine word.
fn check_rec(t: &Term, vars: &mut Vec<(String, VarKind)>, Ghost(b): Ghost<int>) -> (res: Result<
    (),
    String,
>)
    requires
        counts_le(vars_view(old(vars)@), b),
        0 <= b,
        b + term_size(term_view(t)) <= usize::MAX,
    ensures
        match res {
            Ok(()) => wf_check(term_view(t), vars_view(old(vars)@)) matches ChkOut::Pass(v1)
                && vars_view(final(vars)@) == v1,
            Err(m) => wf_check(term_view(t), vars_view(old(vars)@)) matches ChkOut::Fail(msg)
                && m@ == msg,
        },
    decreases t,
{
    let ghost vw0 = vars_view(vars@);
    match t {
        Term::Var(x) => {
            match rfind_exec(vars, x) {
                Some(i) => {
                    let is_linear = match vars[i].1 {
                        VarKind::Linear(_) => true,
                        VarKind::Nonlinear => false,
                    };
                    if is_linear {
                        let n = match vars[i].1 {
                            VarKind::Linear(n) => n,
                            VarKind::Nonlinear => 0,
                        };
                        proof {
                            assert(vw0[i as int] == (vars@[i as int].0@, vars@[i as int].1@));
                            assert(n <= b);
                        }
                        let entry = (x.clone(), VarKind::Linear(n + 1));
                        vars[i] = entry;
                        proof {
                            assert(vars_view(vars@) =~= vw0.update(
                                i as int,
                                (x@, VarKindX::Linear((n + 1) as nat)),
                            ));
                        }
                        Ok(())
                    } else {
                        proof {
                            assert(vw0[i as int] == (vars@[i as int].0@, vars@[i as int].1@));
                        }
                        Ok(())
                    }
                },
                None => Ok(()),
            }
        },
        Term::Const(_) => Ok(()),
        Term::App(f, a) => {
            proof {
                lemma_wf_shape(term_view(&**f), vw0, b);
            }
            match check_rec(&**f, vars, Ghost(b)) {
                Ok(()) => check_rec(&**a, vars, Ghost(b + term_size(term_view(&**f)))),
                Err(m) => Err(m),
            }
        },
        Term::Abs(x, body) => {
            vars.push((x.clone(), VarKind::Linear(0)));
            proof {
                assert(vars_view(vars@) =~= vw0.push((x@, VarKindX::Linear(0))));
                lemma_wf_shape(term_view(&**body), vars_view(vars@), b);
            }
            match check_rec(&**body, vars, Ghost(b)) {
                Ok(()) => {
                    let ghost v1 = vars_view(vars@);
                    let popped = match vars.pop() {
                        Some(p) => p,
                        None => {
                            return Err(build_msg_unused(x));
                        },
                    };
                    proof {
                        assert(v1.last() == (popped.0@, popped.1@));
                        assert(vars_view(vars@) =~= v1.drop_last());
                    }
                    match popped.1 {
                        VarKind::Linear(n) => {
                            if n == 1 {
                                Ok(())
                            } else if n == 0 {
                                Err(build_msg_unused(x))
                            } else {
                                Err(build_msg_used(x, n))
                            }
                        },
                        VarKind::Nonlinear => Err(build_msg_unused(x)),
                    }
                },
                Err(m) => Err(m),
            }
        },
        Term::NonlinearAbs(x, body) => {
            vars.push((x.clone(), VarKind::Nonlinear));
            proof {
                assert(vars_view(vars@) =~= vw0.push((x@, VarKindX::Nonlinear)));
                lemma_wf_shape(term_view(&**body), vars_view(vars@), b);
            }
            match check_rec(&**body, vars, Ghost(b)) {
                Ok(()) => {
                    let ghost v1 = vars_view(vars@);
                    let _ = vars.pop();
                    proof {
                        assert(vars_view(vars@) =~= v1.drop_last());
                    }
                    Ok(())
                },
                Err(m) => Err(m),
            }
        },
        Term::Nonlinear(inner) => {
            // check against a snapshot of the stack; the stack itself is
            // not changed by the suspension
            let mut snapshot: Vec<(String, VarKind)> = Vec::new();
            let mut i: usize = 0;
            while i < vars.len()
                invariant
                    i <= vars@.len(),
                    vw0 == vars_view(vars@),
                    snapshot@.len() == i,
                    forall|j: int| 0 <= j < i ==> snapshot@[j].0@ == vars@[j].0@ && snapshot@[j].1
                        == vars@[j].1,
                decreases vars@.len() - i,
            {
                let entry = (vars[i].0.clone(), vars[i].1);
                snapshot.push(entry);
                i = i + 1;
            }
            proof {
                assert(vars_view(snapshot@) =~= vw0);
            }
            match check_rec(inner, &mut snapshot, Ghost(b)) {
                Ok(()) => {
                    let ghost v1 = vars_view(snapshot@);
                    // find the first linear count that grew inside the bang
                    let mut i: usize = 0;
                    let n = vars.len();
                    proof {
                        lemma_wf_shape(term_view(&**inner), vw0, b);
                    }
                    while i < n
                        invariant
                            i <= n,
                            n == vars@.len(),
                            snapshot@.len() == n,
                            vw0 == vars_view(vars@),
                            vw0 == vars_view(old(vars)@),
                            v1 == vars_view(snapshot@),
                            wf_check(term_view(&**inner), vw0) == ChkOut::Pass(v1),
                            term_view(t) == TermX::Nonlinear(Box::new(term_view(&**inner))),
                            first_grown(vw0, v1, 0) == first_grown(vw0, v1, i as int),
                        decreases n - i,
                    {
                        proof {
                            assert(vw0[i as int] == (vars@[i as int].0@, vars@[i as int].1@));
                            assert(v1[i as int] == (snapshot@[i as int].0@, snapshot@[i as int].1@));
                        }
                        let grown = match (vars[i].1, snapshot[i].1) {
                            (VarKind::Linear(n0), VarKind::Linear(n1)) => n1 > n0,
                            _ => false,
                        };
                        if grown {
                            return Err(build_msg_bang(&vars[i].0));
                        }
                        i = i + 1;
                    }
                    Ok(())
                },
                Err(m) => Err(m),
            }
        },
    }
}

/// Determines whether a term is well-formed for the linearity discipline:
/// every linear variable is used exactly once in its lambda's body, and no
/// linear variable's count grows inside a bang suspension.  On failure the
/// message names the offending variable.
pub fn well_formed(t: &Term) -> (res: Result<(), String>)
    requires
        term_size(t@) <= usize::MAX,
    ensures
        match res {
            Ok(()) => wf_check(t@, Seq::empty()) is Pass,
            Err(m) => wf_check(t@, Seq::empty()) matches ChkOut::Fail(msg) && m@ == msg,
        },
{
    let mut vars: Vec<(String, VarKind)> = Vec::new();
    proof {
        assert(vars_view(vars@) =~= Seq::empty());
    }
    check_rec(t, &mut vars, Ghost(0))
}

} // verus!
