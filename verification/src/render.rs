//! Printing: kets render as `|0>` and `|1>`, gates as their letter, the
//! measurement operator as `M`, lambdas and applications with parentheses,
//! and a superposition as a bracketed list of branch lines.  Amplitudes
//! print in their exact form `(a+b*w+c*w^2+d*w^3)/r^k`, with `w` the eighth
//! root of unity and `r` the square root of two.

use vstd::prelude::*;
use crate::term::{Term, TermX};
use crate::amp::{Amp, AmpX};
use crate::superpos::Superpos;
use crate::eval::{Value, ValX};
use crate::names::{dec_digits, fmt_nat};

verus! {

broadcast use vstd::string::group_string_axioms;

/// The text of a term.
pub open spec fn render_view(t: TermX) -> Seq<char>
    decreases t,
{
    match t {
        TermX::Var(x) => x,
        TermX::Const(crate::term::ConstX::Gate(g)) => g,
        TermX::Const(crate::term::ConstX::Ket(b)) => if b {
            "|1>"@
        } else {
            "|0>"@
        },
        TermX::Const(crate::term::ConstX::Meas) => "M"@,
        TermX::Abs(x, body) => "(\u{03bb}"@ + x + ". "@ + render_view(*body) + ")"@,
        TermX::NonlinearAbs(x, body) => "(#"@ + x + ". "@ + render_view(*body) + ")"@,
        TermX::App(f, a) => "("@ + render_view(*f) + " "@ + render_view(*a) + ")"@,
        TermX::Nonlinear(inner) => "!("@ + render_view(*inner) + ")"@,
    }
}

/// Renders a term.
pub fn render_term(t: &Term) -> (r: String)
    ensures
        r@ == render_view(t@),
    decreases t,
{
    match t {
        Term::Var(x) => x.clone(),
        Term::Const(crate::term::Const::Gate(g)) => g.clone(),
        Term::Const(crate::term::Const::Ket(b)) => {
            if *b {
                String::from_str("|1>")
            } else {
                String::from_str("|0>")
            }
        },
        Term::Const(crate::term::Const::Meas) => String::from_str("M"),
        Term::Abs(x, body) => {
            let mut s = String::from_str("(\u{03bb}");
            s.append(x.as_str());
            s.append(". ");
            s.append(render_term(&**body).as_str());
            s.append(")");
            proof {
                assert(s@ =~= render_view(t@));
            }
            s
        },
        Term::NonlinearAbs(x, body) => {
            let mut s = String::from_str("(#");
            s.append(x.as_str());
            s.append(". ");
            s.append(render_term(&**body).as_str());
            s.append(")");
            proof {
                assert(s@ =~= render_view(t@));
            }
            s
        },
        Term::App(f, a) => {
            let mut s = String::from_str("(");
            s.append(render_term(&**f).as_str());
            s.append(" ");
            s.append(render_term(&**a).as_str());
            s.append(")");
            proof {
                assert(s@ =~= render_view(t@));
            }
            s
        },
        Term::Nonlinear(inner) => {
            let mut s = String::from_str("!(");
            s.append(render_term(&**inner).as_str());
            s.append(")");
            proof {
                assert(s@ =~= render_view(t@));
            }
            s
        },
    }
}

/// The text of a signed integer.
pub open spec fn int_text(v: int) -> Seq<char> {
    if v < 0 {
        "-"@ + dec_digits((-v) as nat)
    } else {
        dec_digits(v as nat)
    }
}

/// Renders a signed coefficient.
fn render_i64(v: i64) -> (r: String)
    ensures
        r@ == int_text(v as int),
{
    if v < 0 {
        let m = (-(v as i128)) as u64;
        let mut s = String::from_str("-");
        s.append(fmt_u64(m).as_str());
        proof {
            assert(s@ =~= int_text(v as int));
        }
        s
    } else {
        fmt_u64(v as u64)
    }
}

/// Renders a number in decimal.
fn fmt_u64(n: u64) -> (r: String)
    ensures
        r@ == dec_digits(n as nat),
    decreases n,
{
    if n < 10 {
        let d = (n % 10) as usize;
        fmt_nat(d)
    } else {
        let mut prefix = fmt_u64(n / 10);
        prefix.append(fmt_nat((n % 10) as usize).as_str());
        proof {
            assert(prefix@ =~= dec_digits(n as nat));
        }
        prefix
    }
}

/// The text of an amplitude: its four coefficients over the root-two
/// denominator.
pub open spec fn amp_text(a: AmpX) -> Seq<char> {
    "("@ + int_text(a.a) + "+"@ + int_text(a.b) + "*w+"@ + int_text(a.c) + "*w^2+"@ + int_text(
        a.d,
    ) + "*w^3)/r^"@ + dec_digits(a.k)
}

/// Renders an amplitude.
pub fn render_amp(a: &Amp) -> (r: String)
    ensures
        r@ == amp_text(a@),
{
    let mut s = String::from_str("(");
    s.append(render_i64(a.a).as_str());
    s.append("+");
    s.append(render_i64(a.b).as_str());
    s.append("*w+");
    s.append(render_i64(a.c).as_str());
    s.append("*w^2+");
    s.append(render_i64(a.d).as_str());
    s.append("*w^3)/r^");
    s.append(fmt_u64(a.k as u64).as_str());
    proof {
        assert(s@ =~= amp_text(a@));
    }
    s
}

/// The text of the branch lines of a superposition.
pub open spec fn branches_text(s: Seq<(TermX, AmpX)>) -> Seq<char>
    decreases s.len(),
{
    if s.len() == 0 {
        Seq::empty()
    } else {
        branches_text(s.drop_last()) + "("@ + render_view(s.last().0) + "): "@ + amp_text(
            s.last().1,
        ) + ",\n"@
    }
}

/// The text of a superposition.
pub open spec fn superpos_text(s: Seq<(TermX, AmpX)>) -> Seq<char> {
    "[\n"@ + branches_text(s) + "]"@
}

/// Renders a superposition.
pub fn render_superpos(sp: &Superpos) -> (r: String)
    ensures
        r@ == superpos_text(sp@),
{
    let mut s = String::from_str("[\n");
    let mut i: usize = 0;
    proof {
        assert(sp@.subrange(0, 0) =~= Seq::<(TermX, AmpX)>::empty());
        assert(s@ =~= "[\n"@ + branches_text(sp@.subrange(0, 0)));
    }
    while i < sp.0.len()
        invariant
            i <= sp.0@.len(),
            s@ == "[\n"@ + branches_text(sp@.subrange(0, i as int)),
        decreases sp.0@.len() - i,
    {
        proof {
            assert(sp@[i as int] == (sp.0@[i as int].0@, sp.0@[i as int].1@));
        }
        s.append("(");
        s.append(render_term(&sp.0[i].0).as_str());
        s.append("): ");
        s.append(render_amp(&sp.0[i].1).as_str());
        s.append(",\n");
        proof {
            assert(sp@.subrange(0, i + 1).drop_last() =~= sp@.subrange(0, i as int));
            assert(sp@.subrange(0, i + 1).last() == sp@[i as int]);
            assert(s@ =~= "[\n"@ + branches_text(sp@.subrange(0, i + 1)));
        }
        i = i + 1;
    }
    s.append("]");
    proof {
        assert(sp@.subrange(0, sp@.len() as int) =~= sp@);
        assert(s@ =~= superpos_text(sp@));
    }
    s
}

/// The text of a value.
pub open spec fn value_text(v: ValX) -> Seq<char> {
    match v {
        ValX::Term(t) => render_view(t),
        ValX::Superpos(s) => superpos_text(s),
    }
}

/// Renders a value: a classical term as its text, a superposition as its
/// branch list.
pub fn render_value(v: &Value) -> (r: String)
    ensures
        r@ == value_text(v@),
{
    match v {
        Value::Term(t) => render_term(t),
        Value::Superpos(s) => render_superpos(s),
    }
}

} // verus!
