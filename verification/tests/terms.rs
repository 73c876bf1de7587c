//! Terms, substitution, free variables and fresh names on concrete inputs.

use qlam::term::{abs, app, gate, ket, meas, nonlinear, nonlinear_abs, pair, term_eq, var, Term};
use qlam::names::fresh_var;
use qlam::subst::{free_vars, subst};
use qlam::linear::well_formed;

fn s(x: &str) -> String {
    x.to_string()
}

#[test]
fn constructors_build_the_expected_shapes() {
    assert_eq!(var("x"), Term::Var(s("x")));
    assert_eq!(ket(false), Term::Const(qlam::term::Const::Ket(false)));
    assert_eq!(gate("H"), Term::Const(qlam::term::Const::Gate(s("H"))));
    assert_eq!(meas(), Term::Const(qlam::term::Const::Meas));
    assert_eq!(
        pair(ket(false), ket(true)),
        abs("b", app(app(var("b"), ket(false)), ket(true)))
    );
}

#[test]
fn term_eq_compares_names_verbatim() {
    assert!(term_eq(&abs("x", var("x")), &abs("x", var("x"))));
    assert!(!term_eq(&abs("x", var("x")), &abs("y", var("y"))));
    assert!(!term_eq(&var("x"), &ket(false)));
}

#[test]
fn to_classical_renames_kets() {
    assert_eq!(ket(true).to_classical(), var("true"));
    assert_eq!(ket(false).to_classical(), var("false"));
    assert_eq!(
        app(ket(true), ket(false)).to_classical(),
        app(var("true"), var("false"))
    );
}

#[test]
fn free_vars_subtracts_binders() {
    let t = abs("x", app(var("x"), var("y")));
    let fv = free_vars(&t);
    assert!(fv.iter().any(|v| v == "y"));
    assert!(!fv.iter().any(|v| v == "x"));
}

#[test]
fn fresh_var_returns_base_when_free() {
    assert_eq!(fresh_var("x", &vec![s("y")]), s("x"));
}

#[test]
fn fresh_var_appends_the_smallest_free_suffix() {
    assert_eq!(fresh_var("x", &vec![s("x"), s("x1")]), s("x2"));
    assert_eq!(fresh_var("x", &vec![s("x"), s("x2")]), s("x1"));
}

#[test]
fn subst_replaces_free_occurrences() {
    let t = app(var("x"), var("y"));
    let r = subst(&t, &s("x"), &ket(true));
    assert_eq!(r, app(ket(true), var("y")));
}

#[test]
fn subst_respects_shadowing() {
    let t = abs("x", var("x"));
    let r = subst(&t, &s("x"), &ket(true));
    assert_eq!(r, abs("x", var("x")));
}

#[test]
fn subst_avoids_capture_by_renaming() {
    // substituting y for x under a binder named y renames the binder
    let t = abs("y", var("x"));
    let r = subst(&t, &s("x"), &var("y"));
    assert_eq!(r, abs("y1", var("y")));
}

#[test]
fn subst_with_the_same_variable_is_identity() {
    // the alpha-idempotence law on a concrete term
    let t = abs("y", app(var("x"), nonlinear(var("x"))));
    let r = subst(&t, &s("x"), &var("x"));
    assert_eq!(r, t);
}

#[test]
fn capture_avoidance_on_a_concrete_term() {
    // free variables of the result stay within (fv(t) - {x}) + fv(s)
    let t = abs("y", app(var("x"), var("z")));
    let r = subst(&t, &s("x"), &var("y"));
    let fv = free_vars(&r);
    for v in fv.iter() {
        assert!(v == "y" || v == "z");
    }
}

#[test]
fn linear_lambda_must_use_its_variable_once() {
    assert!(well_formed(&abs("x", var("x"))).is_ok());
    let unused = well_formed(&abs("x", ket(false)));
    assert!(unused.unwrap_err().contains("unused"));
    let twice = well_formed(&abs("x", app(var("x"), var("x"))));
    assert!(twice.unwrap_err().contains("used 2 times"));
}

#[test]
fn linear_variable_may_not_appear_inside_a_bang() {
    let t = abs("x", nonlinear(var("x")));
    assert!(well_formed(&t).unwrap_err().contains("appears inside !"));
    let ok = nonlinear_abs("x", nonlinear(var("x")));
    assert!(well_formed(&ok).is_ok());
}
