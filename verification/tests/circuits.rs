//! The circuit reader and compiler on concrete grids.

use qlam::circuit::{parse_circuit, CircuitError};
use qlam::errors::EvalError;
use qlam::eval::{eval, Value};
use qlam::parser::str_chars;
use qlam::repl::{populate_term, Repl};
use qlam::examples::load_stdlib;
use qlam::term::{abs, app, ket, var, Term};

const FUEL: u64 = 100_000;

fn circ(text: &str) -> Result<qlam::circuit::Circuit, CircuitError> {
    parse_circuit(&str_chars(text))
}

#[test]
fn circuit_reader_checks_its_alphabet() {
    assert!(matches!(circ(""), Err(CircuitError::EmptyCircuit)));
    assert!(matches!(circ("0X"), Err(CircuitError::InvalidChar)));
    assert!(matches!(circ("0\nQ"), Err(CircuitError::InvalidChar)));
}

#[test]
fn circuit_reader_checks_layer_widths() {
    assert!(matches!(circ("0\nH H"), Err(CircuitError::DimMismatch)));
    assert!(matches!(circ("01\nH"), Err(CircuitError::DimMismatch)));
    assert!(matches!(circ("01\nC\nS"), Ok(_)));
    assert!(matches!(circ("0 1\nH T"), Ok(_)));
}

#[test]
fn compiled_identity_circuit_reduces_to_its_input() {
    let c = circ("0\nI\n").unwrap();
    let t = c.to_lambda().unwrap();
    let r = eval(t, FUEL).unwrap();
    match r {
        Value::Term(t) => {
            assert_eq!(t, abs("f", app(var("f"), ket(false))));
        }
        other => panic!("expected the one-wire tuple, got {:?}", other),
    }
}

#[test]
fn compiled_bell_circuit_yields_the_bell_state() {
    // the grid applies a Hadamard to the first wire and then a CNOT
    let c = circ("00\nH I\nC\n").unwrap();
    let t = c.to_lambda().unwrap();
    let mut repl = Repl::new();
    load_stdlib(&mut repl);
    let t = populate_term(&t, &repl);
    match eval(t, FUEL) {
        Ok(Value::Superpos(sp)) => {
            assert_eq!(sp.0.len(), 2, "branches: {:?}", sp.0);
            let tuple = |b: bool| abs("f", app(app(var("f"), ket(b)), ket(b)));
            assert_eq!(sp.0[0].0, tuple(false));
            assert_eq!(sp.0[1].0, tuple(true));
            // both weights are exactly one half
            for (_, a) in sp.0.iter() {
                let norm_num = a.a * a.a + a.b * a.b + a.c * a.c + a.d * a.d;
                assert_eq!(norm_num * 2, 1i64 << a.k);
            }
        }
        other => panic!("expected the Bell state, got {:?}", other),
    }
}

#[test]
fn measuring_is_blocked_before_an_invalid_program_runs() {
    // a term that fails the linearity check never begins reduction, so no
    // randomness is sampled even though a measurement is present
    let body = app(
        qlam::term::meas(),
        app(qlam::term::gate("H"), app(var("x"), var("x"))),
    );
    let t = app(abs("x", body), ket(false));
    assert!(matches!(eval(t, FUEL), Err(EvalError::LinearityViolation(_))));
}
