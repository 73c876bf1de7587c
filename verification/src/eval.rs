//! The evaluator: call-by-value, innermost-first reduction, with gates and
//! measurement dispatched through the application relation.

use vstd::prelude::*;
use crate::term::{
    Term, TermX, Const, ConstX, term_view, term_size, clone_term, pair_view, pair, ket,
};
use crate::amp::{Amp, AmpX, amp_mul, amp_mul_ok, norm_a, norm_b};
use crate::superpos::{
    Superpos, branches_view, spec_merge, measure_guards, max_k, cum_a, cum_b,
};
use crate::errors::{EvalError, ErrX};
use crate::subst::{spec_subst, subst};
use crate::linear::{wf_check, ChkOut, well_formed};
use vstd::arithmetic::power2::pow2;

verus! {

broadcast use vstd::string::group_string_axioms;

/// The outcome of evaluation: a classical term, or a superposition.
#[derive(Debug)]
pub enum Value {
    Term(Term),
    Superpos(Superpos),
}

/// The model of a value.
pub enum ValX {
    Term(TermX),
    Superpos(Seq<(TermX, AmpX)>),
}

impl View for Value {
    type V = ValX;

    open spec fn view(&self) -> ValX {
        match self {
            Value::Term(t) => ValX::Term(t@),
            Value::Superpos(s) => ValX::Superpos(s@),
        }
    }
}

/// A ket as a term model.
pub open spec fn ket_view(b: bool) -> TermX {
    TermX::Const(ConstX::Ket(b))
}

/// The Church-pair reading of a term: `\x. ((x a) c)` is the pair of `a` and
/// `c`.  Detection is purely syntactic.
pub open spec fn as_pair_view(t: TermX) -> Option<(TermX, TermX)> {
    match t {
        TermX::Abs(x, body) => match *body {
            TermX::App(left, c) => match *left {
                TermX::App(head, a) => match *head {
                    TermX::Var(v) => if v == x {
                        Some((*a, *c))
                    } else {
                        None
                    },
                    _ => None,
                },
                _ => None,
            },
            _ => None,
        },
        _ => None,
    }
}

/// The amplitude 1.
pub open spec fn amp_one_view() -> AmpX {
    AmpX { a: 1, b: 0, c: 0, d: 0, k: 0 }
}

/// The Hadamard weight `±1/√2`.
pub open spec fn amp_rh_view(neg: bool) -> AmpX {
    AmpX {
        a: if neg {
            -1int
        } else {
            1int
        },
        b: 0,
        c: 0,
        d: 0,
        k: 1,
    }
}

/// The T-gate phase `w`.
pub open spec fn amp_omega_view() -> AmpX {
    AmpX { a: 0, b: 1, c: 0, d: 0, k: 0 }
}

/// The kernel of the fixed gates: the superposition one yields on an argument term, or
/// the failure.  H and T take a single ket; C takes a Church pair of kets
/// and maps (b1, b2) to (b1, b1 xor b2); any other symbol is unknown.
pub open spec fn spec_apply_gate(g: Seq<char>, t: TermX) -> Result<Seq<(TermX, AmpX)>, ErrX> {
    if g == "H"@ {
        match t {
            TermX::Const(ConstX::Ket(b)) => Ok(
                seq![(ket_view(false), amp_rh_view(false)), (ket_view(true), amp_rh_view(b))],
            ),
            _ => Err(ErrX::BadGate("Hadamard must take 1 qubit"@)),
        }
    } else if g == "C"@ {
        match as_pair_view(t) {
            Some((a, c)) => match (a, c) {
                (TermX::Const(ConstX::Ket(b1)), TermX::Const(ConstX::Ket(b2))) => Ok(
                    seq![
                        (pair_view(ket_view(b1), ket_view(b1 != b2)), amp_one_view()),
                    ],
                ),
                _ => Err(ErrX::BadGate("CNOT must take a pair of qubits"@)),
            },
            None => Err(ErrX::BadGate("CNOT must take a pair of qubits"@)),
        }
    } else if g == "T"@ {
        match t {
            TermX::Const(ConstX::Ket(b)) => Ok(
                seq![
                    (
                        ket_view(b),
                        if b {
                            amp_omega_view()
                        } else {
                            amp_one_view()
                        },
                    ),
                ],
            ),
            _ => Err(ErrX::BadGate("T gate must take 1 qubit"@)),
        }
    } else {
        Err(ErrX::BadGate("Gate not found: "@ + g))
    }
}

/// Classical beta reduction: a linear lambda substitutes its argument; a
/// duplicable lambda requires a bang-suspended argument and substitutes the
/// suspended term.  A free variable on the left is an undefined symbol;
/// any other left side cannot be applied.
pub open spec fn spec_beta(t1: TermX, t2: TermX) -> Result<TermX, ErrX> {
    match t1 {
        TermX::Abs(x, body) => Ok(spec_subst(*body, x, t2)),
        TermX::NonlinearAbs(x, body) => match t2 {
            TermX::Nonlinear(inner) => Ok(spec_subst(*body, x, *inner)),
            _ => Err(
                ErrX::BadApplication("nonlinear lambda applied to a linear argument"@),
            ),
        },
        TermX::Var(x) => Err(ErrX::UndefinedSymbol("undefined symbol "@ + x)),
        _ => Err(ErrX::BadApplication("application of a non-lambda term"@)),
    }
}

/// Reads a term as a Church pair, when it has exactly the pair shape.
fn as_pair(t: &Term) -> (r: Option<(&Term, &Term)>)
    ensures
        match r {
            Some(p) => as_pair_view(t@) == Some((p.0@, p.1@)),
            None => as_pair_view(t@) is None,
        },
{
    proof {
        reveal_with_fuel(term_view, 5);
    }
    match t {
        Term::Abs(x, body) => match &**body {
            Term::App(left, c) => match &**left {
                Term::App(head, a) => match &**head {
                    Term::Var(v) => if v.eq(x) {
                        Some((&**a, &**c))
                    } else {
                        None
                    },
                    _ => None,
                },
                _ => None,
            },
            _ => None,
        },
        _ => None,
    }
}

/// Applies a gate constant to an argument term.
pub fn apply_gate(g: &String, t: &Term) -> (res: Result<Superpos, EvalError>)
    ensures
        match res {
            Ok(s) => spec_apply_gate(g@, t@) == Ok::<_, ErrX>(s@),
            Err(e) => spec_apply_gate(g@, t@) matches Err(m) && e@ == m,
        },
{
    if g.eq(&String::from_str("H")) {
        match t {
            Term::Const(Const::Ket(b)) => {
                let mut v: Vec<(Term, Amp)> = Vec::new();
                v.push((ket(false), Amp::sqrt_half(false)));
                v.push((ket(true), Amp::sqrt_half(*b)));
                let s = Superpos(v);
                proof {
                    assert(s@ =~= spec_apply_gate(g@, t@)->Ok_0);
                }
                Ok(s)
            },
            _ => Err(EvalError::BadGate(String::from_str("Hadamard must take 1 qubit"))),
        }
    } else if g.eq(&String::from_str("C")) {
        let bits = match as_pair(t) {
            Some((a, c)) => {
                match (a, c) {
                    (Term::Const(Const::Ket(b1)), Term::Const(Const::Ket(b2))) => Some(
                        (*b1, *b2),
                    ),
                    _ => None,
                }
            },
            None => None,
        };
        match bits {
            Some((b1, b2)) => {
                let out = pair(ket(b1), ket(b1 != b2));
                let mut v: Vec<(Term, Amp)> = Vec::new();
                v.push((out, Amp::one()));
                let s = Superpos(v);
                proof {
                    assert(s@ =~= spec_apply_gate(g@, t@)->Ok_0);
                }
                Ok(s)
            },
            None => Err(
                EvalError::BadGate(String::from_str("CNOT must take a pair of qubits")),
            ),
        }
    } else if g.eq(&String::from_str("T")) {
        match t {
            Term::Const(Const::Ket(b)) => {
                let amp = if *b {
                    Amp::omega()
                } else {
                    Amp::one()
                };
                let mut v: Vec<(Term, Amp)> = Vec::new();
                v.push((ket(*b), amp));
                let s = Superpos(v);
                proof {
                    assert(s@ =~= spec_apply_gate(g@, t@)->Ok_0);
                }
                Ok(s)
            },
            _ => Err(EvalError::BadGate(String::from_str("T gate must take 1 qubit"))),
        }
    } else {
        Err(EvalError::BadGate(String::from_str("Gate not found: ").concat(g.as_str())))
    }
}

/// Performs one classical beta reduction.
pub fn beta_reduce(t1: Term, t2: Term) -> (res: Result<Term, EvalError>)
    ensures
        match res {
            Ok(t) => spec_beta(t1@, t2@) == Ok::<_, ErrX>(t@),
            Err(e) => spec_beta(t1@, t2@) matches Err(m) && e@ == m,
        },
{
    match &t1 {
        Term::Abs(x, body) => Ok(subst(&**body, x, &t2)),
        Term::NonlinearAbs(x, body) => match &t2 {
            Term::Nonlinear(inner) => Ok(subst(&**body, x, &**inner)),
            _ => Err(
                EvalError::BadApplication(
                    String::from_str("nonlinear lambda applied to a linear argument"),
                ),
            ),
        },
        Term::Var(x) => Err(
            EvalError::UndefinedSymbol(String::from_str("undefined symbol ").concat(x.as_str())),
        ),
        _ => Err(
            EvalError::BadApplication(String::from_str("application of a non-lambda term")),
        ),
    }
}

/// One classical application: a gate constant on the left dispatches to the
/// gate kernel; anything else beta-reduces.
pub open spec fn spec_apply_tt(t1: TermX, t2: TermX) -> Result<ValX, ErrX> {
    match t1 {
        TermX::Const(ConstX::Gate(g)) => match spec_apply_gate(g, t2) {
            Ok(s) => Ok(ValX::Superpos(s)),
            Err(e) => Err(e),
        },
        _ => match spec_beta(t1, t2) {
            Ok(t) => Ok(ValX::Term(t)),
            Err(e) => Err(e),
        },
    }
}

/// Scales every branch of a superposition by a joint amplitude, as when an
/// inner superposition is flattened into an outer branch.
pub open spec fn spec_scale(a: AmpX, s: Seq<(TermX, AmpX)>) -> Result<Seq<(TermX, AmpX)>, ErrX>
    decreases s.len(),
{
    if s.len() == 0 {
        Ok(Seq::empty())
    } else if amp_mul_ok(a, s[0].1) {
        match spec_scale(a, s.drop_first()) {
            Ok(rest) => Ok(seq![(s[0].0, amp_mul(a, s[0].1))] + rest),
            Err(e) => Err(e),
        }
    } else {
        Err(ErrX::AmplitudeOverflow)
    }
}

/// Glues a computed prefix onto the outcome for the remaining branches.
pub open spec fn combine(acc: Seq<(TermX, AmpX)>, r: Result<Seq<(TermX, AmpX)>, ErrX>) -> Result<
    Seq<(TermX, AmpX)>,
    ErrX,
> {
    match r {
        Ok(x) => Ok(acc + x),
        Err(e) => Err(e),
    }
}

/// Applies a fixed left term to every branch of a superposition, flattening
/// any superposition a branch yields by multiplying amplitudes.  The result
/// is unmerged; the caller merges.
pub open spec fn spec_map_left(t: TermX, s: Seq<(TermX, AmpX)>) -> Result<
    Seq<(TermX, AmpX)>,
    ErrX,
>
    decreases s.len(),
{
    if s.len() == 0 {
        Ok(Seq::empty())
    } else {
        match spec_apply_tt(t, s[0].0) {
            Err(e) => Err(e),
            Ok(ValX::Term(u)) => combine(seq![(u, s[0].1)], spec_map_left(t, s.drop_first())),
            Ok(ValX::Superpos(s2)) => match spec_scale(s[0].1, s2) {
                Err(e) => Err(e),
                Ok(sc) => combine(sc, spec_map_left(t, s.drop_first())),
            },
        }
    }
}

/// Applies every branch of a superposition to a fixed right term, flattening
/// as in `spec_map_left`.
pub open spec fn spec_map_right(s: Seq<(TermX, AmpX)>, t: TermX) -> Result<
    Seq<(TermX, AmpX)>,
    ErrX,
>
    decreases s.len(),
{
    if s.len() == 0 {
        Ok(Seq::empty())
    } else {
        match spec_apply_tt(s[0].0, t) {
            Err(e) => Err(e),
            Ok(ValX::Term(u)) => combine(seq![(u, s[0].1)], spec_map_right(s.drop_first(), t)),
            Ok(ValX::Superpos(s2)) => match spec_scale(s[0].1, s2) {
                Err(e) => Err(e),
                Ok(sc) => combine(sc, spec_map_right(s.drop_first(), t)),
            },
        }
    }
}

/// One row of the Cartesian product: a single left branch applied to every
/// branch of the right superposition, amplitudes multiplied branch-wise.
pub open spec fn spec_zip_row(t1: TermX, a1: AmpX, s2: Seq<(TermX, AmpX)>) -> Result<
    Seq<(TermX, AmpX)>,
    ErrX,
>
    decreases s2.len(),
{
    if s2.len() == 0 {
        Ok(Seq::empty())
    } else {
        match spec_apply_tt(t1, s2[0].0) {
            Err(e) => Err(e),
            Ok(ValX::Term(u)) => {
                if amp_mul_ok(a1, s2[0].1) {
                    combine(
                        seq![(u, amp_mul(a1, s2[0].1))],
                        spec_zip_row(t1, a1, s2.drop_first()),
                    )
                } else {
                    Err(ErrX::AmplitudeOverflow)
                }
            },
            Ok(ValX::Superpos(s3)) => {
                if amp_mul_ok(a1, s2[0].1) {
                    match spec_scale(amp_mul(a1, s2[0].1), s3) {
                        Err(e) => Err(e),
                        Ok(sc) => combine(sc, spec_zip_row(t1, a1, s2.drop_first())),
                    }
                } else {
                    Err(ErrX::AmplitudeOverflow)
                }
            },
        }
    }
}

/// The Cartesian product of two superpositions under application, row by
/// row.
pub open spec fn spec_zip(s1: Seq<(TermX, AmpX)>, s2: Seq<(TermX, AmpX)>) -> Result<
    Seq<(TermX, AmpX)>,
    ErrX,
>
    decreases s1.len(),
{
    if s1.len() == 0 {
        Ok(Seq::empty())
    } else {
        match spec_zip_row(s1[0].0, s1[0].1, s2) {
            Err(e) => Err(e),
            Ok(row) => combine(row, spec_zip(s1.drop_first(), s2)),
        }
    }
}

/// What a measurement may return: some merged branch's term on success, the
/// enumerated failures otherwise.
pub open spec fn meas_rel(s: Seq<(TermX, AmpX)>, r: Result<ValX, ErrX>) -> bool {
    match r {
        Ok(ValX::Term(u)) => spec_merge(s) matches Some(m) && m.len() > 0 && exists|i: int|
            0 <= i < m.len() && u == m[i].0,
        Ok(ValX::Superpos(_)) => false,
        Err(ErrX::BadApplication(_)) => spec_merge(s) matches Some(m) && m.len() == 0,
        Err(ErrX::AmplitudeOverflow) => spec_merge(s) is None || (spec_merge(s) matches Some(m)
            && m.len() > 0 && !measure_guards(m)),
        Err(_) => false,
    }
}

/// The application relation.  Everything but measurement is a function of
/// the two values; a measurement may return any merged branch, and must
/// succeed when the sampling arithmetic is within bounds.
pub open spec fn apply_rel(v1: ValX, v2: ValX, r: Result<ValX, ErrX>) -> bool {
    match (v1, v2) {
        (ValX::Term(TermX::Const(ConstX::Meas)), ValX::Superpos(s)) => meas_rel(s, r) && ((
        spec_merge(s) matches Some(m) && m.len() > 0 && measure_guards(m)) ==> r is Ok),
        (ValX::Term(t1), ValX::Term(t2)) => r == spec_apply_tt(t1, t2),
        (ValX::Term(t), ValX::Superpos(s)) => match spec_map_left(t, s) {
            Ok(out) => r == Ok::<ValX, ErrX>(ValX::Superpos(out)),
            Err(e) => r == Err::<ValX, ErrX>(e),
        },
        (ValX::Superpos(s), ValX::Term(t)) => match spec_map_right(s, t) {
            Ok(out) => r == Ok::<ValX, ErrX>(ValX::Superpos(out)),
            Err(e) => r == Err::<ValX, ErrX>(e),
        },
        (ValX::Superpos(s1), ValX::Superpos(s2)) => match spec_zip(s1, s2) {
            Ok(out) => r == Ok::<ValX, ErrX>(ValX::Superpos(out)),
            Err(e) => r == Err::<ValX, ErrX>(e),
        },
    }
}

/// The model of an evaluation outcome.
pub open spec fn res_view(r: Result<Value, EvalError>) -> Result<ValX, ErrX> {
    match r {
        Ok(v) => Ok(v@),
        Err(e) => Err(e@),
    }
}

/// One classical application, as an executable step.
fn apply_tt(t1: &Term, t2: &Term) -> (res: Result<Value, EvalError>)
    ensures
        match res {
            Ok(v) => spec_apply_tt(t1@, t2@) == Ok::<ValX, ErrX>(v@),
            Err(e) => spec_apply_tt(t1@, t2@) matches Err(m) && e@ == m,
        },
{
    match t1 {
        Term::Const(Const::Gate(g)) => match apply_gate(g, t2) {
            Ok(s) => Ok(Value::Superpos(s)),
            Err(e) => Err(e),
        },
        _ => match beta_reduce(clone_term(t1), clone_term(t2)) {
            Ok(t) => Ok(Value::Term(t)),
            Err(e) => Err(e),
        },
    }
}

/// Scales every branch of a superposition by a joint amplitude.
fn scale_branches(a: Amp, s: &Superpos) -> (res: Result<Vec<(Term, Amp)>, EvalError>)
    ensures
        match res {
            Ok(v) => spec_scale(a@, s@) == Ok::<_, ErrX>(branches_view(v@)),
            Err(e) => spec_scale(a@, s@) == Err::<Seq<(TermX, AmpX)>, ErrX>(
                ErrX::AmplitudeOverflow,
            ) && e@ == ErrX::AmplitudeOverflow,
        },
{
    let mut out: Vec<(Term, Amp)> = Vec::new();
    let mut i: usize = 0;
    proof {
        assert(s@.skip(0) =~= s@);
        assert(branches_view(out@) =~= Seq::empty());
    }
    while i < s.0.len()
        invariant
            i <= s.0.len(),
            combine(branches_view(out@), spec_scale(a@, s@.skip(i as int))) == spec_scale(
                a@,
                s@,
            ),
        decreases s.0.len() - i,
    {
        let ghost rest = s@.skip(i as int);
        proof {
            assert(rest[0] == (s.0@[i as int].0@, s.0@[i as int].1@));
            assert(rest.drop_first() =~= s@.skip(i + 1));
        }
        let m = match a.mul(s.0[i].1) {
            Some(m) => m,
            None => {
                return Err(EvalError::AmplitudeOverflow);
            },
        };
        let ghost pre = branches_view(out@);
        out.push((clone_term(&s.0[i].0), m));
        proof {
            assert(branches_view(out@) =~= pre.push((rest[0].0, amp_mul(a@, rest[0].1))));
            assert(forall|x: Seq<(TermX, AmpX)>|
                pre.push((rest[0].0, amp_mul(a@, rest[0].1))) + x =~= pre + (seq![
                    (rest[0].0, amp_mul(a@, rest[0].1)),
                ] + x));
        }
        i = i + 1;
    }
    proof {
        assert(s@.skip(s@.len() as int) =~= Seq::empty());
        assert(branches_view(out@) + Seq::empty() =~= branches_view(out@));
    }
    Ok(out)
}

/// Applies a fixed left term across a superposition.
fn map_left(t: &Term, s: &Superpos) -> (res: Result<Superpos, EvalError>)
    ensures
        match res {
            Ok(out) => spec_map_left(t@, s@) == Ok::<_, ErrX>(out@),
            Err(e) => spec_map_left(t@, s@) matches Err(m) && e@ == m,
        },
{
    let mut out: Vec<(Term, Amp)> = Vec::new();
    let mut i: usize = 0;
    proof {
        assert(s@.skip(0) =~= s@);
        assert(branches_view(out@) =~= Seq::empty());
    }
    while i < s.0.len()
        invariant
            i <= s.0.len(),
            combine(branches_view(out@), spec_map_left(t@, s@.skip(i as int)))
                == spec_map_left(t@, s@),
        decreases s.0.len() - i,
    {
        let ghost rest = s@.skip(i as int);
        proof {
            assert(rest[0] == (s.0@[i as int].0@, s.0@[i as int].1@));
            assert(rest.drop_first() =~= s@.skip(i + 1));
        }
        let a = s.0[i].1;
        let ghost pre = branches_view(out@);
        match apply_tt(t, &s.0[i].0) {
            Err(e) => {
                proof {
                    assert(spec_apply_tt(t@, rest[0].0) == Err::<ValX, ErrX>(e@));
                    assert(spec_map_left(t@, rest) == Err::<Seq<(TermX, AmpX)>, ErrX>(e@));
                }
                return Err(e);
            },
            Ok(Value::Term(u)) => {
                proof {
                    assert(forall|x: Seq<(TermX, AmpX)>|
                        pre.push((u@, a@)) + x =~= pre + (seq![(u@, a@)] + x));
                }
                out.push((u, a));
                proof {
                    assert(branches_view(out@) =~= pre.push((u@, a@)));
                }
            },
            Ok(Value::Superpos(s2)) => {
                let mut sc = match scale_branches(a, &s2) {
                    Ok(v) => v,
                    Err(e) => {
                        return Err(e);
                    },
                };
                let ghost scv = branches_view(sc@);
                proof {
                    assert(forall|x: Seq<(TermX, AmpX)>| (pre + scv) + x =~= pre + (scv + x));
                }
                out.append(&mut sc);
                proof {
                    assert(branches_view(out@) =~= pre + scv);
                }
            },
        }
        i = i + 1;
    }
    proof {
        assert(s@.skip(s@.len() as int) =~= Seq::empty());
        assert(branches_view(out@) + Seq::empty() =~= branches_view(out@));
    }
    Ok(Superpos(out))
}

/// Applies a superposition across a fixed right term.
fn map_right(s: &Superpos, t: &Term) -> (res: Result<Superpos, EvalError>)
    ensures
        match res {
            Ok(out) => spec_map_right(s@, t@) == Ok::<_, ErrX>(out@),
            Err(e) => spec_map_right(s@, t@) matches Err(m) && e@ == m,
        },
{
    let mut out: Vec<(Term, Amp)> = Vec::new();
    let mut i: usize = 0;
    proof {
        assert(s@.skip(0) =~= s@);
        assert(branches_view(out@) =~= Seq::empty());
    }
    while i < s.0.len()
        invariant
            i <= s.0.len(),
            combine(branches_view(out@), spec_map_right(s@.skip(i as int), t@))
                == spec_map_right(s@, t@),
        decreases s.0.len() - i,
    {
        let ghost rest = s@.skip(i as int);
        proof {
            assert(rest[0] == (s.0@[i as int].0@, s.0@[i as int].1@));
            assert(rest.drop_first() =~= s@.skip(i + 1));
        }
        let a = s.0[i].1;
        let ghost pre = branches_view(out@);
        match apply_tt(&s.0[i].0, t) {
            Err(e) => {
                proof {
                    assert(spec_apply_tt(rest[0].0, t@) == Err::<ValX, ErrX>(e@));
                    assert(spec_map_right(rest, t@) == Err::<Seq<(TermX, AmpX)>, ErrX>(e@));
                }
                return Err(e);
            },
            Ok(Value::Term(u)) => {
                proof {
                    assert(forall|x: Seq<(TermX, AmpX)>|
                        pre.push((u@, a@)) + x =~= pre + (seq![(u@, a@)] + x));
                }
                out.push((u, a));
                proof {
                    assert(branches_view(out@) =~= pre.push((u@, a@)));
                }
            },
            Ok(Value::Superpos(s2)) => {
                let mut sc = match scale_branches(a, &s2) {
                    Ok(v) => v,
                    Err(e) => {
                        return Err(e);
                    },
                };
                let ghost scv = branches_view(sc@);
                proof {
                    assert(forall|x: Seq<(TermX, AmpX)>| (pre + scv) + x =~= pre + (scv + x));
                }
                out.append(&mut sc);
                proof {
                    assert(branches_view(out@) =~= pre + scv);
                }
            },
        }
        i = i + 1;
    }
    proof {
        assert(s@.skip(s@.len() as int) =~= Seq::empty());
        assert(branches_view(out@) + Seq::empty() =~= branches_view(out@));
    }
    Ok(Superpos(out))
}

/// One row of the Cartesian product of two superpositions.
fn zip_row(t1: &Term, a1: Amp, s2: &Superpos) -> (res: Result<Vec<(Term, Amp)>, EvalError>)
    ensures
        match res {
            Ok(v) => spec_zip_row(t1@, a1@, s2@) == Ok::<_, ErrX>(branches_view(v@)),
            Err(e) => spec_zip_row(t1@, a1@, s2@) matches Err(m) && e@ == m,
        },
{
    let mut out: Vec<(Term, Amp)> = Vec::new();
    let mut i: usize = 0;
    proof {
        assert(s2@.skip(0) =~= s2@);
        assert(branches_view(out@) =~= Seq::empty());
    }
    while i < s2.0.len()
        invariant
            i <= s2.0.len(),
            combine(branches_view(out@), spec_zip_row(t1@, a1@, s2@.skip(i as int)))
                == spec_zip_row(t1@, a1@, s2@),
        decreases s2.0.len() - i,
    {
        let ghost rest = s2@.skip(i as int);
        proof {
            assert(rest[0] == (s2.0@[i as int].0@, s2.0@[i as int].1@));
            assert(rest.drop_first() =~= s2@.skip(i + 1));
        }
        let a2 = s2.0[i].1;
        let ghost pre = branches_view(out@);
        match apply_tt(t1, &s2.0[i].0) {
            Err(e) => {
                proof {
                    assert(spec_apply_tt(t1@, rest[0].0) == Err::<ValX, ErrX>(e@));
                    assert(spec_zip_row(t1@, a1@, rest) == Err::<Seq<(TermX, AmpX)>, ErrX>(e@));
                }
                return Err(e);
            },
            Ok(Value::Term(u)) => {
                let m = match a1.mul(a2) {
                    Some(m) => m,
                    None => {
                        return Err(EvalError::AmplitudeOverflow);
                    },
                };
                proof {
                    assert(forall|x: Seq<(TermX, AmpX)>|
                        pre.push((u@, m@)) + x =~= pre + (seq![(u@, m@)] + x));
                }
                out.push((u, m));
                proof {
                    assert(branches_view(out@) =~= pre.push((u@, m@)));
                }
            },
            Ok(Value::Superpos(s3)) => {
                let m12 = match a1.mul(a2) {
                    Some(m) => m,
                    None => {
                        return Err(EvalError::AmplitudeOverflow);
                    },
                };
                let mut sc = match scale_branches(m12, &s3) {
                    Ok(v) => v,
                    Err(e) => {
                        return Err(e);
                    },
                };
                let ghost scv = branches_view(sc@);
                proof {
                    assert(forall|x: Seq<(TermX, AmpX)>| (pre + scv) + x =~= pre + (scv + x));
                }
                out.append(&mut sc);
                proof {
                    assert(branches_view(out@) =~= pre + scv);
                }
            },
        }
        i = i + 1;
    }
    proof {
        assert(s2@.skip(s2@.len() as int) =~= Seq::empty());
        assert(branches_view(out@) + Seq::empty() =~= branches_view(out@));
    }
    Ok(out)
}

/// The Cartesian product of two superpositions under application.
fn zip_product(s1: &Superpos, s2: &Superpos) -> (res: Result<Superpos, EvalError>)
    ensures
        match res {
            Ok(out) => spec_zip(s1@, s2@) == Ok::<_, ErrX>(out@),
            Err(e) => spec_zip(s1@, s2@) matches Err(m) && e@ == m,
        },
{
    let mut out: Vec<(Term, Amp)> = Vec::new();
    let mut i: usize = 0;
    proof {
        assert(s1@.skip(0) =~= s1@);
        assert(branches_view(out@) =~= Seq::empty());
    }
    while i < s1.0.len()
        invariant
            i <= s1.0.len(),
            combine(branches_view(out@), spec_zip(s1@.skip(i as int), s2@)) == spec_zip(
                s1@,
                s2@,
            ),
        decreases s1.0.len() - i,
    {
        let ghost rest = s1@.skip(i as int);
        proof {
            assert(rest[0] == (s1.0@[i as int].0@, s1.0@[i as int].1@));
            assert(rest.drop_first() =~= s1@.skip(i + 1));
        }
        let ghost pre = branches_view(out@);
        let mut row = match zip_row(&s1.0[i].0, s1.0[i].1, s2) {
            Ok(v) => v,
            Err(e) => {
                return Err(e);
            },
        };
        let ghost rowv = branches_view(row@);
        proof {
            assert(forall|x: Seq<(TermX, AmpX)>| (pre + rowv) + x =~= pre + (rowv + x));
        }
        out.append(&mut row);
        proof {
            assert(branches_view(out@) =~= pre + rowv);
        }
        i = i + 1;
    }
    proof {
        assert(s1@.skip(s1@.len() as int) =~= Seq::empty());
        assert(branches_view(out@) + Seq::empty() =~= branches_view(out@));
    }
    Ok(Superpos(out))
}

/// The application relation, executed: dispatches gates, measurement, beta
/// reduction, and the lifting of application through superpositions.
pub fn apply(v1: Value, v2: Value) -> (res: Result<Value, EvalError>)
    ensures
        apply_rel(v1@, v2@, res_view(res)),
{
    match (v1, v2) {
        (Value::Term(Term::Const(Const::Meas)), Value::Superpos(s)) => {
            match s.measure() {
                Ok(t) => Ok(Value::Term(t)),
                Err(e) => Err(e),
            }
        },
        (Value::Term(t1), Value::Term(t2)) => apply_tt(&t1, &t2),
        (Value::Term(t), Value::Superpos(s)) => {
            match map_left(&t, &s) {
                Ok(out) => Ok(Value::Superpos(out)),
                Err(e) => Err(e),
            }
        },
        (Value::Superpos(s), Value::Term(t)) => {
            match map_right(&s, &t) {
                Ok(out) => Ok(Value::Superpos(out)),
                Err(e) => Err(e),
            }
        },
        (Value::Superpos(s1), Value::Superpos(s2)) => {
            match zip_product(&s1, &s2) {
                Ok(out) => Ok(Value::Superpos(out)),
                Err(e) => Err(e),
            }
        },
    }
}

/// A ghost record of one evaluation: which values the subterms of each
/// application evaluated to, what the application returned (a measurement
/// may return any merged branch, so this is genuine information), and the
/// records of the follow-up evaluations.  `eval_check` verifies such a
/// record against the reduction rules; the evaluator produces a valid
/// record alongside its result.
pub enum Trace {
    /// A term that is already a value.
    Leaf,
    /// An application.
    Node {
        /// the record and result of evaluating the function side
        tf: Box<Trace>,
        rf: Result<ValX, ErrX>,
        /// the record and result of evaluating the argument side
        ta: Box<Trace>,
        ra: Result<ValX, ErrX>,
        /// what the application relation returned
        rapp: Result<ValX, ErrX>,
        /// the record of reducing a term result further
        next: Box<Trace>,
        /// the records and results of evaluating superposition branches
        bts: Seq<Trace>,
        brs: Seq<Result<ValX, ErrX>>,
        /// the flattened branch results before the merge
        rb: Result<Seq<(TermX, AmpX)>, ErrX>,
    },
}

/// Checks an evaluation record for the branches of a superposition that an
/// application produced: every branch term is evaluated in turn, the
/// results are flattened with amplitude products, and the first failure
/// wins.
pub open spec fn branches_check(
    branches: Seq<(TermX, AmpX)>,
    bf: nat,
    bts: Seq<Trace>,
    brs: Seq<Result<ValX, ErrX>>,
    res: Result<Seq<(TermX, AmpX)>, ErrX>,
) -> bool
    decreases bf + 1, 0int, branches.len(), 1int,
{
    if branches.len() == 0 {
        res == Ok::<Seq<(TermX, AmpX)>, ErrX>(Seq::empty())
    } else {
        bts.len() >= 1 && brs.len() >= 1 && eval_check(branches[0].0, bf, bts[0], brs[0]) && (
        match brs[0] {
            Err(e) => res == Err::<Seq<(TermX, AmpX)>, ErrX>(e),
            Ok(ValX::Term(u)) => branch_tail_check(branches, bf, bts, brs, res, seq![(u, branches[0].1)]),
            Ok(ValX::Superpos(s2)) => (match spec_scale(branches[0].1, s2) {
                Err(e) => res == Err::<Seq<(TermX, AmpX)>, ErrX>(e),
                Ok(sc) => branch_tail_check(branches, bf, bts, brs, res, sc),
            }),
        })
    }
}

/// The rest of a branch check: the remaining branches must account for the
/// rest of the flattened result, after the head contributed `head`.
pub open spec fn branch_tail_check(
    branches: Seq<(TermX, AmpX)>,
    bf: nat,
    bts: Seq<Trace>,
    brs: Seq<Result<ValX, ErrX>>,
    res: Result<Seq<(TermX, AmpX)>, ErrX>,
    head: Seq<(TermX, AmpX)>,
) -> bool
    decreases bf + 1, 0int, branches.len(), 0int,
{
    if branches.len() == 0 {
        false
    } else {
        match res {
            Err(e) => branches_check(
                branches.drop_first(),
                bf,
                bts.drop_first(),
                brs.drop_first(),
                Err(e),
            ),
            Ok(flat) => flat.len() >= head.len() && flat.subrange(0, head.len() as int) == head
                && branches_check(
                branches.drop_first(),
                bf,
                bts.drop_first(),
                brs.drop_first(),
                Ok(flat.subrange(head.len() as int, flat.len() as int)),
            ),
        }
    }
}

/// Checks an evaluation record: a non-application is already a value; an
/// application evaluates its function, then its argument, applies the one
/// to the other, and goes on reducing the result, spending one unit of the
/// step bound for each reduction of an application's result.
pub open spec fn eval_check(t: TermX, fuel: nat, tr: Trace, r: Result<ValX, ErrX>) -> bool
    decreases fuel, 1int, term_size(t), 0int,
{
    match t {
        TermX::App(t1, t2) => (match tr {
            Trace::Leaf => false,
            Trace::Node { tf, rf, ta, ra, rapp, next, bts, brs, rb } => eval_check(
                *t1,
                fuel,
                *tf,
                rf,
            ) && (match rf {
                Err(e) => r == Err::<ValX, ErrX>(e),
                Ok(v1) => eval_check(*t2, fuel, *ta, ra) && (match ra {
                    Err(e) => r == Err::<ValX, ErrX>(e),
                    Ok(v2) => apply_rel(v1, v2, rapp) && (match rapp {
                        Err(e) => r == Err::<ValX, ErrX>(e),
                        Ok(ValX::Term(t3)) => if fuel == 0 {
                            r == Err::<ValX, ErrX>(ErrX::StepLimit)
                        } else {
                            eval_check(t3, (fuel - 1) as nat, *next, r)
                        },
                        Ok(ValX::Superpos(s2)) => if fuel == 0 {
                            r == Err::<ValX, ErrX>(ErrX::StepLimit)
                        } else {
                            branches_check(s2, (fuel - 1) as nat, bts, brs, rb) && (match rb {
                                Err(e) => r == Err::<ValX, ErrX>(e),
                                Ok(flat) => (match spec_merge(flat) {
                                    Some(m) => r == Ok::<ValX, ErrX>(ValX::Superpos(m)),
                                    None => r == Err::<ValX, ErrX>(ErrX::AmplitudeOverflow),
                                }),
                            })
                        },
                    }),
                }),
            }),
        }),
        _ => r == Ok::<ValX, ErrX>(ValX::Term(t)),
    }
}

/// Reduces a term to a value, and records how.
#[verifier::rlimit(100)]
fn eval_value(t: Term, fuel: u64) -> (res: (Result<Value, EvalError>, Ghost<Trace>))
    ensures
        eval_check(t@, fuel as nat, res.1@, res_view(res.0)),
    decreases fuel, term_size(t@),
{
    match t {
        Term::App(t1, t2) => {
            let ghost tv1 = term_view(&*t1);
            let ghost tv2 = term_view(&*t2);
            let ghost tv = TermX::App(Box::new(tv1), Box::new(tv2));
            proof {
                assert(tv == t@);
            }
            let (r1, Ghost(tr1)) = eval_value(*t1, fuel);
            let ghost r1v = res_view(r1);
            let v1 = match r1 {
                Ok(v) => v,
                Err(e) => {
                    let ghost tr = Trace::Node {
                        tf: Box::new(tr1),
                        rf: r1v,
                        ta: Box::new(Trace::Leaf),
                        ra: r1v,
                        rapp: r1v,
                        next: Box::new(Trace::Leaf),
                        bts: Seq::empty(),
                        brs: Seq::empty(),
                        rb: Ok(Seq::empty()),
                    };
                    proof {
                        assert(eval_check(tv, fuel as nat, tr, Err::<ValX, ErrX>(e@)));
                    }
                    return (Err(e), Ghost(tr));
                },
            };
            let ghost v1v = v1@;
            let (r2, Ghost(tr2)) = eval_value(*t2, fuel);
            let ghost r2v = res_view(r2);
            let v2 = match r2 {
                Ok(v) => v,
                Err(e) => {
                    let ghost tr = Trace::Node {
                        tf: Box::new(tr1),
                        rf: r1v,
                        ta: Box::new(tr2),
                        ra: r2v,
                        rapp: r2v,
                        next: Box::new(Trace::Leaf),
                        bts: Seq::empty(),
                        brs: Seq::empty(),
                        rb: Ok(Seq::empty()),
                    };
                    proof {
                        assert(eval_check(tv, fuel as nat, tr, Err::<ValX, ErrX>(e@)));
                    }
                    return (Err(e), Ghost(tr));
                },
            };
            let ghost v2v = v2@;
            let ra = apply(v1, v2);
            let ghost rav = res_view(ra);
            let va = match ra {
                Ok(v) => v,
                Err(e) => {
                    let ghost tr = Trace::Node {
                        tf: Box::new(tr1),
                        rf: r1v,
                        ta: Box::new(tr2),
                        ra: r2v,
                        rapp: rav,
                        next: Box::new(Trace::Leaf),
                        bts: Seq::empty(),
                        brs: Seq::empty(),
                        rb: Ok(Seq::empty()),
                    };
                    proof {
                        assert(eval_check(tv, fuel as nat, tr, Err::<ValX, ErrX>(e@)));
                    }
                    return (Err(e), Ghost(tr));
                },
            };
            match va {
                Value::Term(t3) => {
                    if fuel == 0 {
                        let ghost tr = Trace::Node {
                            tf: Box::new(tr1),
                            rf: r1v,
                            ta: Box::new(tr2),
                            ra: r2v,
                            rapp: rav,
                            next: Box::new(Trace::Leaf),
                            bts: Seq::empty(),
                            brs: Seq::empty(),
                            rb: Ok(Seq::empty()),
                        };
                        proof {
                            assert(eval_check(tv, fuel as nat, tr, Err::<ValX, ErrX>(
                                ErrX::StepLimit,
                            )));
                        }
                        (Err(EvalError::StepLimit), Ghost(tr))
                    } else {
                        let (resn, Ghost(trn)) = eval_value(t3, fuel - 1);
                        let ghost tr = Trace::Node {
                            tf: Box::new(tr1),
                            rf: r1v,
                            ta: Box::new(tr2),
                            ra: r2v,
                            rapp: rav,
                            next: Box::new(trn),
                            bts: Seq::empty(),
                            brs: Seq::empty(),
                            rb: Ok(Seq::empty()),
                        };
                        proof {
                            assert(eval_check(tv, fuel as nat, tr, res_view(resn)));
                        }
                        (resn, Ghost(tr))
                    }
                },
                Value::Superpos(s2) => {
                    if fuel == 0 {
                        let ghost tr = Trace::Node {
                            tf: Box::new(tr1),
                            rf: r1v,
                            ta: Box::new(tr2),
                            ra: r2v,
                            rapp: rav,
                            next: Box::new(Trace::Leaf),
                            bts: Seq::empty(),
                            brs: Seq::empty(),
                            rb: Ok(Seq::empty()),
                        };
                        proof {
                            assert(eval_check(tv, fuel as nat, tr, Err::<ValX, ErrX>(
                                ErrX::StepLimit,
                            )));
                        }
                        (Err(EvalError::StepLimit), Ghost(tr))
                    } else {
                        let ghost s2v = s2@;
                        let ghost bf = (fuel - 1) as nat;
                        let mut flat: Vec<(Term, Amp)> = Vec::new();
                        let ghost mut bts: Seq<Trace> = Seq::empty();
                        let ghost mut brs: Seq<Result<ValX, ErrX>> = Seq::empty();
                        let mut i: usize = 0;
                        proof {
                            assert(s2v.skip(0) =~= s2v);
                            assert(branches_view(flat@) =~= Seq::empty());
                        }
                        while i < s2.0.len()
                            invariant
                                i <= s2.0.len(),
                                s2v == s2@,
                                fuel >= 1,
                                bf == (fuel - 1) as nat,
                                bts.len() == i,
                                brs.len() == i,
                                tv == t@,
                                tv == TermX::App(Box::new(tv1), Box::new(tv2)),
                                eval_check(tv1, fuel as nat, tr1, Ok::<ValX, ErrX>(v1v)),
                                eval_check(tv2, fuel as nat, tr2, Ok::<ValX, ErrX>(v2v)),
                                apply_rel(v1v, v2v, rav),
                                rav == Ok::<ValX, ErrX>(ValX::Superpos(s2v)),
                                r1v == Ok::<ValX, ErrX>(v1v),
                                r2v == Ok::<ValX, ErrX>(v2v),
                                forall|rbts: Seq<Trace>, rbrs: Seq<Result<ValX, ErrX>>, rr: Result<Seq<(TermX, AmpX)>, ErrX>|
                                    #[trigger] branches_check(s2v.skip(i as int), bf, rbts, rbrs, rr)
                                        ==> branches_check(
                                        s2v,
                                        bf,
                                        bts + rbts,
                                        brs + rbrs,
                                        combine(branches_view(flat@), rr),
                                    ),
                            decreases s2.0.len() - i,
                        {
                            let ghost rest = s2v.skip(i as int);
                            let ghost pre = branches_view(flat@);
                            proof {
                                assert(rest[0] == (s2.0@[i as int].0@, s2.0@[i as int].1@));
                                assert(rest.drop_first() =~= s2v.skip(i + 1));
                            }
                            let amp_i = s2.0[i].1;
                            let (rbi, Ghost(tri)) = eval_value(clone_term(&s2.0[i].0), fuel - 1);
                            let ghost rbiv = res_view(rbi);
                            let vb = match rbi {
                                Ok(v) => v,
                                Err(e) => {
                                    let ghost fbts = bts + seq![tri];
                                    let ghost fbrs = brs + seq![rbiv];
                                    proof {
                                        assert((seq![tri]).drop_first() =~= Seq::<Trace>::empty());
                                        assert((seq![rbiv]).drop_first() =~= Seq::<
                                            Result<ValX, ErrX>,
                                        >::empty());
                                        assert(branches_check(rest, bf, seq![tri], seq![rbiv], Err::<
                                            Seq<(TermX, AmpX)>,
                                            ErrX,
                                        >(e@)));
                                        assert(branches_check(s2v, bf, fbts, fbrs, combine(pre, Err::<
                                            Seq<(TermX, AmpX)>,
                                            ErrX,
                                        >(e@))));
                                    }
                                    let ghost tr = Trace::Node {
                                        tf: Box::new(tr1),
                                        rf: r1v,
                                        ta: Box::new(tr2),
                                        ra: r2v,
                                        rapp: rav,
                                        next: Box::new(Trace::Leaf),
                                        bts: fbts,
                                        brs: fbrs,
                                        rb: Err(e@),
                                    };
                                    proof {
                                        assert(eval_check(tv, fuel as nat, tr, Err::<ValX, ErrX>(
                                            e@,
                                        )));
                                    }
                                    return (Err(e), Ghost(tr));
                                },
                            };
                            match vb {
                                Value::Term(u) => {
                                    proof {
                                        assert(forall|x: Seq<(TermX, AmpX)>|
                                            pre.push((u@, amp_i@)) + x =~= pre + (seq![
                                                (u@, amp_i@),
                                            ] + x));
                                        assert forall|
                                            rbts: Seq<Trace>,
                                            rbrs: Seq<Result<ValX, ErrX>>,
                                            rr: Result<Seq<(TermX, AmpX)>, ErrX>,
                                        |
                                            #[trigger] branches_check(
                                                rest.drop_first(),
                                                bf,
                                                rbts,
                                                rbrs,
                                                rr,
                                            ) implies branches_check(
                                            rest,
                                            bf,
                                            seq![tri] + rbts,
                                            seq![rbiv] + rbrs,
                                            combine(seq![(u@, amp_i@)], rr),
                                        ) by {
                                            assert((seq![tri] + rbts).drop_first() =~= rbts);
                                            assert((seq![rbiv] + rbrs).drop_first() =~= rbrs);
                                            let cm = combine(seq![(u@, amp_i@)], rr);
                                            if rr is Ok {
                                                let flat2 = cm->Ok_0;
                                                assert(flat2.subrange(0, 1) =~= seq![(u@, amp_i@)]);
                                                assert(flat2.subrange(1, flat2.len() as int)
                                                    =~= rr->Ok_0);
                                            }
                                        }
                                        assert forall|
                                            rbts: Seq<Trace>,
                                            rbrs: Seq<Result<ValX, ErrX>>,
                                            rr: Result<Seq<(TermX, AmpX)>, ErrX>,
                                        |
                                            #[trigger] branches_check(
                                                s2v.skip(i + 1),
                                                bf,
                                                rbts,
                                                rbrs,
                                                rr,
                                            ) implies branches_check(
                                            s2v,
                                            bf,
                                            (bts + seq![tri]) + rbts,
                                            (brs + seq![rbiv]) + rbrs,
                                            combine(pre.push((u@, amp_i@)), rr),
                                        ) by {
                                            assert(branches_check(
                                                rest,
                                                bf,
                                                seq![tri] + rbts,
                                                seq![rbiv] + rbrs,
                                                combine(seq![(u@, amp_i@)], rr),
                                            ));
                                            assert(bts + (seq![tri] + rbts) =~= (bts + seq![tri])
                                                + rbts);
                                            assert(brs + (seq![rbiv] + rbrs) =~= (brs + seq![rbiv])
                                                + rbrs);
                                            assert(combine(pre, combine(seq![(u@, amp_i@)], rr))
                                                == combine(pre.push((u@, amp_i@)), rr));
                                        }
                                    }
                                    flat.push((u, amp_i));
                                    proof {
                                        bts = bts + seq![tri];
                                        brs = brs + seq![rbiv];
                                        assert(branches_view(flat@) =~= pre.push((u@, amp_i@)));
                                    }
                                },
                                Value::Superpos(sb) => {
                                    let mut sc = match scale_branches(amp_i, &sb) {
                                        Ok(v) => v,
                                        Err(e) => {
                                            let ghost fbts = bts + seq![tri];
                                            let ghost fbrs = brs + seq![rbiv];
                                            proof {
                                                assert(branches_check(rest, bf, seq![tri], seq![
                                                    rbiv,
                                                ], Err::<Seq<(TermX, AmpX)>, ErrX>(e@)));
                                                assert(branches_check(
                                                    s2v,
                                                    bf,
                                                    fbts,
                                                    fbrs,
                                                    combine(pre, Err::<Seq<(TermX, AmpX)>, ErrX>(
                                                        e@,
                                                    )),
                                                ));
                                            }
                                            let ghost tr = Trace::Node {
                                                tf: Box::new(tr1),
                                                rf: r1v,
                                                ta: Box::new(tr2),
                                                ra: r2v,
                                                rapp: rav,
                                                next: Box::new(Trace::Leaf),
                                                bts: fbts,
                                                brs: fbrs,
                                                rb: Err(e@),
                                            };
                                            proof {
                                                assert(eval_check(tv, fuel as nat, tr, Err::<
                                                    ValX,
                                                    ErrX,
                                                >(e@)));
                                            }
                                            return (Err(e), Ghost(tr));
                                        },
                                    };
                                    let ghost scv = branches_view(sc@);
                                    proof {
                                        assert(forall|x: Seq<(TermX, AmpX)>|
                                            (pre + scv) + x =~= pre + (scv + x));
                                        assert forall|
                                            rbts: Seq<Trace>,
                                            rbrs: Seq<Result<ValX, ErrX>>,
                                            rr: Result<Seq<(TermX, AmpX)>, ErrX>,
                                        |
                                            #[trigger] branches_check(
                                                rest.drop_first(),
                                                bf,
                                                rbts,
                                                rbrs,
                                                rr,
                                            ) implies branches_check(
                                            rest,
                                            bf,
                                            seq![tri] + rbts,
                                            seq![rbiv] + rbrs,
                                            combine(scv, rr),
                                        ) by {
                                            assert((seq![tri] + rbts).drop_first() =~= rbts);
                                            assert((seq![rbiv] + rbrs).drop_first() =~= rbrs);
                                            let cm = combine(scv, rr);
                                            if rr is Ok {
                                                let flat2 = cm->Ok_0;
                                                assert(flat2.subrange(0, scv.len() as int)
                                                    =~= scv);
                                                assert(flat2.subrange(
                                                    scv.len() as int,
                                                    flat2.len() as int,
                                                ) =~= rr->Ok_0);
                                            }
                                        }
                                        assert forall|
                                            rbts: Seq<Trace>,
                                            rbrs: Seq<Result<ValX, ErrX>>,
                                            rr: Result<Seq<(TermX, AmpX)>, ErrX>,
                                        |
                                            #[trigger] branches_check(
                                                s2v.skip(i + 1),
                                                bf,
                                                rbts,
                                                rbrs,
                                                rr,
                                            ) implies branches_check(
                                            s2v,
                                            bf,
                                            (bts + seq![tri]) + rbts,
                                            (brs + seq![rbiv]) + rbrs,
                                            combine(pre + scv, rr),
                                        ) by {
                                            assert(branches_check(
                                                rest,
                                                bf,
                                                seq![tri] + rbts,
                                                seq![rbiv] + rbrs,
                                                combine(scv, rr),
                                            ));
                                            assert(bts + (seq![tri] + rbts) =~= (bts + seq![tri])
                                                + rbts);
                                            assert(brs + (seq![rbiv] + rbrs) =~= (brs + seq![rbiv])
                                                + rbrs);
                                            assert(combine(pre, combine(scv, rr)) == combine(
                                                pre + scv,
                                                rr,
                                            ));
                                        }
                                    }
                                    flat.append(&mut sc);
                                    proof {
                                        bts = bts + seq![tri];
                                        brs = brs + seq![rbiv];
                                        assert(branches_view(flat@) =~= pre + scv);
                                    }
                                },
                            }
                            i = i + 1;
                        }
                        proof {
                            assert(s2v.skip(s2v.len() as int) =~= Seq::empty());
                            assert(branches_check(s2v.skip(s2v.len() as int), bf, Seq::empty(), Seq::empty(), Ok::<
                                Seq<(TermX, AmpX)>,
                                ErrX,
                            >(Seq::empty())));
                            assert(bts + Seq::<Trace>::empty() =~= bts);
                            assert(brs + Seq::<Result<ValX, ErrX>>::empty() =~= brs);
                            assert(branches_view(flat@) + Seq::empty() =~= branches_view(flat@));
                            assert(branches_check(s2v, bf, bts, brs, Ok::<
                                Seq<(TermX, AmpX)>,
                                ErrX,
                            >(branches_view(flat@))));
                        }
                        let ghost flatv = branches_view(flat@);
                        let sp = Superpos(flat);
                        match sp.merge() {
                            Some(m) => {
                                let ghost tr = Trace::Node {
                                    tf: Box::new(tr1),
                                    rf: r1v,
                                    ta: Box::new(tr2),
                                    ra: r2v,
                                    rapp: rav,
                                    next: Box::new(Trace::Leaf),
                                    bts: bts,
                                    brs: brs,
                                    rb: Ok(flatv),
                                };
                                let res = Ok(Value::Superpos(m));
                                proof {
                                    assert(eval_check(tv, fuel as nat, tr, res_view(res)));
                                }
                                (res, Ghost(tr))
                            },
                            None => {
                                let ghost tr = Trace::Node {
                                    tf: Box::new(tr1),
                                    rf: r1v,
                                    ta: Box::new(tr2),
                                    ra: r2v,
                                    rapp: rav,
                                    next: Box::new(Trace::Leaf),
                                    bts: bts,
                                    brs: brs,
                                    rb: Ok(flatv),
                                };
                                proof {
                                    assert(eval_check(tv, fuel as nat, tr, Err::<ValX, ErrX>(
                                        ErrX::AmplitudeOverflow,
                                    )));
                                }
                                (Err(EvalError::AmplitudeOverflow), Ghost(tr))
                            },
                        }
                    }
                },
            }
        },
        _ => {
            let res = Ok(Value::Term(t));
            (res, Ghost(Trace::Leaf))
        },
    }
}

/// Evaluates a term: runs the linearity check once on the whole term, and
/// only a term that passes begins reduction, so a rejected program never
/// samples randomness.  `fuel` bounds how many application results may be
/// reduced in turn; it does not change the outcome of a reduction that
/// completes within it.
pub fn eval(term: Term, fuel: u64) -> (res: Result<Value, EvalError>)
    requires
        term_size(term@) <= usize::MAX,
    ensures
        wf_check(term@, Seq::empty()) matches ChkOut::Fail(m) ==> res matches Err(e) && e@
            == ErrX::LinearityViolation(m),
        wf_check(term@, Seq::empty()) is Pass ==> exists|tr: Trace|
            eval_check(term@, fuel as nat, tr, res_view(res)),
        res is Ok ==> wf_check(term@, Seq::empty()) is Pass,
{
    match well_formed(&term) {
        Err(m) => Err(EvalError::LinearityViolation(m)),
        Ok(()) => {
            let (res, Ghost(tr)) = eval_value(term, fuel);
            proof {
                assert(eval_check(term@, fuel as nat, tr, res_view(res)));
            }
            res
        },
    }
}

/// A gate never returns an empty superposition: each success of the kernel
/// holds at least one branch.
pub proof fn lemma_gate_nonempty(g: Seq<char>, t: TermX)
    requires
        spec_apply_gate(g, t) is Ok,
    ensures
        spec_apply_gate(g, t)->Ok_0.len() >= 1,
{
}

/// Whether the branch weights of a superposition sum exactly to one:
/// `Σ|amp|² == (A + B·√2)/2^K == 1` exactly when `A == 2^K` and `B == 0`.
pub open spec fn unit_norm(s: Seq<(TermX, AmpX)>) -> bool {
    cum_a(s, max_k(s), s.len() as int) == pow2(max_k(s)) && cum_b(s, max_k(s), s.len() as int)
        == 0
}

/// The three gate amplitudes are unit amplitudes: their weight
/// `norm_a + norm_b·√2` is exactly 1.
proof fn lemma_unit_amp_norm(x: AmpX)
    requires
        x.c == 0 && x.d == 0,
        (x.b == 0 && (x.a == 1 || x.a == -1)) || (x.a == 0 && x.b == 1),
    ensures
        norm_a(x) == 1,
        norm_b(x) == 0,
{
    assert(x.a * x.a + x.b * x.b + x.c * x.c + x.d * x.d == 1 && x.a * x.b + x.b * x.c + x.c
        * x.d - x.a * x.d == 0) by (nonlinear_arith)
        requires
            x.c == 0 && x.d == 0,
            (x.b == 0 && (x.a == 1 || x.a == -1)) || (x.a == 0 && x.b == 1),
    ;
}

/// The Hadamard gate is unitary on both basis kets: its two branch weights
/// are each 1/2 and sum exactly to one.
pub proof fn lemma_hadamard_unitary(b: bool)
    ensures
        spec_apply_gate("H"@, ket_view(b)) matches Ok(s) && unit_norm(s),
{
    reveal_strlit("H");
    reveal_strlit("C");
    reveal_strlit("T");
    let s = spec_apply_gate("H"@, ket_view(b))->Ok_0;
    vstd::arithmetic::power2::lemma2_to64();
    assert(s.len() == 2 && s[0].1 == amp_rh_view(false) && s[1].1 == amp_rh_view(b));
    assert(s.drop_last().drop_last() =~= Seq::empty());
    assert(max_k(s.drop_last().drop_last()) == 0);
    assert(s.drop_last().last() == s[0] && s.drop_last().len() == 1);
    assert(max_k(s.drop_last()) == 1);
    assert(max_k(s) == 1);
    assert(cum_a(s, 1, 0) == 0 && cum_b(s, 1, 0) == 0);
    lemma_unit_amp_norm(s[0].1);
    lemma_unit_amp_norm(s[1].1);
    assert(cum_a(s, 1, 1) == 1 && cum_b(s, 1, 1) == 0);
    assert(cum_a(s, 1, 2) == 2 && cum_b(s, 1, 2) == 0);
}

/// The T gate is unitary on both basis kets: its single branch has weight
/// exactly one.
pub proof fn lemma_t_unitary(b: bool)
    ensures
        spec_apply_gate("T"@, ket_view(b)) matches Ok(s) && unit_norm(s),
{
    reveal_strlit("H");
    reveal_strlit("C");
    reveal_strlit("T");
    let s = spec_apply_gate("T"@, ket_view(b))->Ok_0;
    vstd::arithmetic::power2::lemma2_to64();
    assert("T"@.len() == 1 && "T"@[0] == 'T');
    assert("H"@.len() == 1 && "H"@[0] == 'H');
    assert("T"@ != "H"@);
    assert("T"@ != "C"@);
    assert(s.len() == 1);
    assert(s.drop_last() =~= Seq::empty());
    assert(max_k(s.drop_last()) == 0);
    assert(max_k(s) == 0);
    assert(cum_a(s, 0, 0) == 0 && cum_b(s, 0, 0) == 0);
    lemma_unit_amp_norm(s[0].1);
    assert(cum_a(s, 0, 1) == 1 && cum_b(s, 0, 1) == 0);
}

/// The CNOT gate is unitary on every pair of basis kets: its single branch
/// has weight exactly one.
pub proof fn lemma_cnot_unitary(b1: bool, b2: bool)
    ensures
        spec_apply_gate("C"@, pair_view(ket_view(b1), ket_view(b2))) matches Ok(s) && unit_norm(
            s,
        ),
{
    reveal_strlit("H");
    reveal_strlit("C");
    reveal_strlit("T");
    let p = pair_view(ket_view(b1), ket_view(b2));
    assert(as_pair_view(p) == Some((ket_view(b1), ket_view(b2))));
    let s = spec_apply_gate("C"@, p)->Ok_0;
    vstd::arithmetic::power2::lemma2_to64();
    assert("C"@.len() == 1 && "C"@[0] == 'C');
    assert("H"@.len() == 1 && "H"@[0] == 'H');
    assert("C"@ != "H"@);
    assert(s.len() == 1 && s[0].1 == amp_one_view());
    assert(s.drop_last() =~= Seq::empty());
    assert(max_k(s.drop_last()) == 0);
    assert(max_k(s) == 0);
    assert(cum_a(s, 0, 0) == 0 && cum_b(s, 0, 0) == 0);
    lemma_unit_amp_norm(s[0].1);
    assert(cum_a(s, 0, 1) == 1 && cum_b(s, 0, 1) == 0);
}

} // verus!
