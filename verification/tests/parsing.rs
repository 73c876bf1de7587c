//! The tokenizer and parser on concrete lines.

use qlam::parser::{parse, str_chars, ParseError};
use qlam::term::{abs, app, gate, ket, meas, nonlinear, nonlinear_abs, pair, var};

fn p(text: &str) -> Result<qlam::term::Term, ParseError> {
    parse(&str_chars(text))
}

#[test]
fn kets_gates_and_measurement_parse() {
    assert_eq!(p("|0>").unwrap(), ket(false));
    assert_eq!(p("|1>").unwrap(), ket(true));
    assert_eq!(p("H").unwrap(), gate("H"));
    assert_eq!(p("C").unwrap(), gate("C"));
    assert_eq!(p("T").unwrap(), gate("T"));
    assert_eq!(p("M").unwrap(), meas());
}

#[test]
fn application_is_left_associative() {
    assert_eq!(p("f a b").unwrap(), app(app(var("f"), var("a")), var("b")));
}

#[test]
fn lambdas_extend_to_the_end() {
    assert_eq!(p("\\x.x").unwrap(), abs("x", var("x")));
    assert_eq!(
        p("\\x.\\y.y x").unwrap(),
        abs("x", abs("y", app(var("y"), var("x"))))
    );
    assert_eq!(p("#x. x").unwrap(), nonlinear_abs("x", var("x")));
}

#[test]
fn the_greek_lambda_works_too() {
    assert_eq!(p("\u{03bb}x.x").unwrap(), abs("x", var("x")));
}

#[test]
fn bang_wraps_the_next_group() {
    assert_eq!(p("!(x)").unwrap(), nonlinear(var("x")));
    assert_eq!(
        p("f !(x)").unwrap(),
        app(var("f"), nonlinear(var("x")))
    );
}

#[test]
fn identifiers_may_hold_digits_after_a_letter() {
    assert_eq!(p("x0 x1").unwrap(), app(var("x0"), var("x1")));
}

#[test]
fn the_gate_pipeline_parses_as_nested_applications() {
    assert_eq!(
        p("H (H |0>)").unwrap(),
        app(gate("H"), app(gate("H"), ket(false)))
    );
    assert_eq!(
        p("C (pair |1> |0>)").unwrap(),
        app(gate("C"), app(app(var("pair"), ket(true)), ket(false)))
    );
}

#[test]
fn parse_errors_name_the_offending_position() {
    assert!(matches!(p("(x"), Err(ParseError::UnclosedPar(1))));
    assert!(matches!(p(")"), Err(ParseError::UnopenedPar(1))));
    assert!(matches!(p("|0"), Err(ParseError::UnclosedKet(1))));
    assert!(matches!(p("x >"), Err(ParseError::UnopenedKet(3))));
    assert!(matches!(p("0"), Err(ParseError::LoneQubit(1))));
    assert!(matches!(p("\\"), Err(ParseError::MissingBody(1))));
    assert!(matches!(p("\\ |0> x"), Err(ParseError::MissingVar(1))));
    assert!(matches!(p("!x"), Err(ParseError::UnusedNonlinear)));
    assert!(matches!(p(""), Err(ParseError::EmptyList)));
    assert!(matches!(p("()"), Err(ParseError::EmptyList)));
}
