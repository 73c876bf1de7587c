//! The environment, name expansion, the libraries, and printing.

use qlam::examples::{load_qntmlib, load_stdlib};
use qlam::render::{render_term, render_value};
use qlam::repl::{populate_term, Repl};
use qlam::term::{abs, app, gate, ket, nonlinear_abs, pair, var};
use qlam::eval::{eval, Value};

#[test]
fn put_get_and_reset() {
    let mut r = Repl::new();
    assert!(r.get_env(&"a".to_string()).is_none());
    r.put_env("a".to_string(), ket(false));
    assert_eq!(r.get_env(&"a".to_string()), Some(ket(false)));
    r.put_env("a".to_string(), ket(true));
    assert_eq!(r.get_env(&"a".to_string()), Some(ket(true)));
    assert_eq!(r.len(), 1);
    r.reset_env();
    assert_eq!(r.len(), 0);
    assert!(r.get_env(&"a".to_string()).is_none());
}

#[test]
fn populate_expands_free_names() {
    let mut r = Repl::new();
    r.put_env("two".to_string(), app(var("s"), var("z")));
    let t = populate_term(&var("two"), &r);
    assert_eq!(t, app(var("s"), var("z")));
}

#[test]
fn populate_respects_binder_shadowing() {
    let mut r = Repl::new();
    r.put_env("x".to_string(), ket(false));
    // the inner binder wins: the bound occurrence is not expanded
    assert_eq!(populate_term(&abs("x", var("x")), &r), abs("x", var("x")));
    // a free occurrence is expanded
    assert_eq!(
        populate_term(&app(var("x"), abs("x", var("x"))), &r),
        app(ket(false), abs("x", var("x")))
    );
}

#[test]
fn the_standard_library_defines_its_names() {
    let mut r = Repl::new();
    load_stdlib(&mut r);
    assert_eq!(r.len(), 4);
    assert_eq!(
        r.get_env(&"id".to_string()),
        Some(nonlinear_abs("x", var("x")))
    );
    assert_eq!(
        r.get_env(&"pair".to_string()),
        Some(abs(
            "x",
            abs("y", abs("b", app(app(var("b"), var("x")), var("y"))))
        ))
    );
    // swap is stored with pair already expanded into it
    let swap = r.get_env(&"swap".to_string()).unwrap();
    let fv = qlam::subst::free_vars(&swap);
    assert!(fv.is_empty());
}

#[test]
fn the_quantum_library_defines_its_names() {
    let mut r = Repl::new();
    load_stdlib(&mut r);
    load_qntmlib(&mut r);
    assert!(r.get_env(&"deutsch".to_string()).is_some());
    assert!(r.get_env(&"epr".to_string()).is_some());
    // the entangled pair evaluates to a two-branch superposition
    let epr = r.get_env(&"epr".to_string()).unwrap();
    match eval(epr, 100_000) {
        Ok(Value::Superpos(sp)) => assert_eq!(sp.0.len(), 2),
        other => panic!("expected a superposition, got {:?}", other),
    }
}

#[test]
fn replacing_a_binding_keeps_its_place() {
    let mut r = Repl::new();
    r.put_env("a".to_string(), ket(false));
    r.put_env("b".to_string(), ket(false));
    r.put_env("a".to_string(), ket(true));
    let names: Vec<String> = r.entries().iter().map(|(k, _)| k.clone()).collect();
    assert_eq!(names, vec!["a".to_string(), "b".to_string()]);
}

#[test]
fn the_t_phase_renders_in_its_exact_form() {
    let r = eval(app(gate("T"), ket(true)), 1000).unwrap();
    assert_eq!(
        render_value(&r),
        "[\n(|1>): (0+1*w+0*w^2+0*w^3)/r^0,\n]"
    );
}

#[test]
fn terms_render_as_described() {
    assert_eq!(render_term(&ket(false)), "|0>");
    assert_eq!(render_term(&ket(true)), "|1>");
    assert_eq!(render_term(&gate("H")), "H");
    assert_eq!(render_term(&qlam::term::meas()), "M");
    assert_eq!(
        render_term(&pair(ket(false), ket(true))),
        "(\u{03bb}b. ((b |0>) |1>))"
    );
    assert_eq!(
        render_term(&nonlinear_abs("x", qlam::term::nonlinear(var("x")))),
        "(#x. !(x))"
    );
}

#[test]
fn values_render_with_their_amplitudes() {
    let r = eval(app(gate("H"), ket(false)), 1000).unwrap();
    let text = render_value(&r);
    assert_eq!(
        text,
        "[\n(|0>): (1+0*w+0*w^2+0*w^3)/r^1,\n(|1>): (1+0*w+0*w^2+0*w^3)/r^1,\n]"
    );
}
