//! Evaluating concrete programs: gates, beta reduction, linearity, measurement.

use qlam::amp::Amp;
use qlam::errors::EvalError;
use qlam::eval::{apply_gate, eval, Value};
use qlam::superpos::Superpos;
use qlam::term::{abs, app, gate, ket, meas, pair, var, Const, Term};

const FUEL: u64 = 10_000;

fn amp(a: i64, b: i64, c: i64, d: i64, k: u32) -> Amp {
    Amp { a, b, c, d, k }
}

#[test]
fn hadamard_on_zero_gives_the_uniform_superposition() {
    // the program H |0>
    let r = eval(app(gate("H"), ket(false)), FUEL).unwrap();
    match r {
        Value::Superpos(sp) => {
            assert_eq!(sp.0.len(), 2);
            assert_eq!(sp.0[0], (ket(false), amp(1, 0, 0, 0, 1)));
            assert_eq!(sp.0[1], (ket(true), amp(1, 0, 0, 0, 1)));
        }
        Value::Term(_) => panic!("expected a superposition"),
    }
}

#[test]
fn hadamard_twice_merges_back_to_zero() {
    // H (H |0>) collapses to a single branch after the merge, and the
    // canonical form of its weight 2 / sqrt2^2 is exactly 1
    let r = eval(app(gate("H"), app(gate("H"), ket(false))), FUEL).unwrap();
    match r {
        Value::Superpos(sp) => {
            assert_eq!(sp.0.len(), 1);
            assert_eq!(sp.0[0], (ket(false), amp(1, 0, 0, 0, 0)));
        }
        Value::Term(_) => panic!("expected a superposition"),
    }
}

#[test]
fn identity_application_returns_the_ket() {
    // the program (\x.x) |0>
    let r = eval(app(abs("x", var("x")), ket(false)), FUEL).unwrap();
    match r {
        Value::Term(t) => assert_eq!(t, ket(false)),
        Value::Superpos(_) => panic!("expected a classical term"),
    }
}

#[test]
fn duplicating_a_qubit_is_a_linearity_violation() {
    // the program (\x. C (pair x x)) |0>
    let body = app(gate("C"), pair(var("x"), var("x")));
    let t = app(abs("x", body), ket(false));
    match eval(t, FUEL) {
        Err(EvalError::LinearityViolation(m)) => assert!(m.contains("x")),
        other => panic!("expected a linearity violation, got {:?}", other),
    }
}

#[test]
fn cnot_flips_the_target_when_the_control_is_one() {
    // the program C (pair |1> |0>)
    let r = eval(app(gate("C"), pair(ket(true), ket(false))), FUEL).unwrap();
    match r {
        Value::Superpos(sp) => {
            assert_eq!(sp.0.len(), 1);
            assert_eq!(sp.0[0], (pair(ket(true), ket(true)), amp(1, 0, 0, 0, 0)));
        }
        Value::Term(_) => panic!("expected a superposition"),
    }
}

#[test]
fn t_gate_phases_only_the_one_ket() {
    let r0 = apply_gate(&"T".to_string(), &ket(false)).unwrap();
    assert_eq!(r0.0, vec![(ket(false), amp(1, 0, 0, 0, 0))]);
    let r1 = apply_gate(&"T".to_string(), &ket(true)).unwrap();
    assert_eq!(r1.0, vec![(ket(true), amp(0, 1, 0, 0, 0))]);
}

#[test]
fn gate_weights_sum_to_one() {
    // each branch weight is |amp|^2 = (a^2+b^2+c^2+d^2)/2^k for these amps
    let r = apply_gate(&"H".to_string(), &ket(false)).unwrap();
    let total: f64 = r
        .0
        .iter()
        .map(|(_, a)| {
            let n = (a.a * a.a + a.b * a.b + a.c * a.c + a.d * a.d) as f64;
            n / 2f64.powi(a.k as i32)
        })
        .sum();
    assert!((total - 1.0).abs() < 1e-12);
}

#[test]
fn gate_errors_are_reported() {
    match eval(app(gate("H"), pair(ket(false), ket(false))), FUEL) {
        Err(EvalError::BadGate(_)) => {}
        other => panic!("expected a gate failure, got {:?}", other),
    }
    match eval(app(gate("Q"), ket(false)), FUEL) {
        Err(EvalError::BadGate(m)) => assert!(m.contains("Q")),
        other => panic!("expected a gate failure, got {:?}", other),
    }
}

#[test]
fn applying_a_ket_is_a_bad_application() {
    match eval(app(ket(false), ket(true)), FUEL) {
        Err(EvalError::BadApplication(_)) => {}
        other => panic!("expected a bad application, got {:?}", other),
    }
}

#[test]
fn applying_a_free_variable_is_an_undefined_symbol() {
    match eval(app(var("nope"), ket(true)), FUEL) {
        Err(EvalError::UndefinedSymbol(m)) => assert!(m.contains("nope")),
        other => panic!("expected an undefined symbol, got {:?}", other),
    }
}

#[test]
fn nonlinear_lambda_requires_a_bang_argument() {
    let t = app(qlam::term::nonlinear_abs("x", ket(false)), ket(true));
    match eval(t, FUEL) {
        Err(EvalError::BadApplication(_)) => {}
        other => panic!("expected a bad application, got {:?}", other),
    }
}

#[test]
fn fuel_zero_stops_a_reduction() {
    match eval(app(abs("x", var("x")), ket(false)), 0) {
        Err(EvalError::StepLimit) => {}
        other => panic!("expected the step bound, got {:?}", other),
    }
}

#[test]
fn a_standalone_value_needs_no_fuel() {
    match eval(ket(true), 0) {
        Ok(Value::Term(t)) => assert_eq!(t, ket(true)),
        other => panic!("expected the ket back, got {:?}", other),
    }
}

#[test]
fn measurement_returns_a_basis_ket() {
    // M (H |0>) returns one of the two kets, kept as a ket
    let t = app(meas(), app(gate("H"), ket(false)));
    match eval(t, FUEL).unwrap() {
        Value::Term(Term::Const(Const::Ket(_))) => {}
        other => panic!("expected a ket, got {:?}", other),
    }
}

#[test]
fn measurement_is_roughly_unbiased() {
    // the program M (H |0>), evaluated a thousand times
    let mut zeros = 0;
    for _ in 0..1000 {
        let t = app(meas(), app(gate("H"), ket(false)));
        match eval(t, FUEL).unwrap() {
            Value::Term(Term::Const(Const::Ket(false))) => zeros += 1,
            Value::Term(Term::Const(Const::Ket(true))) => {}
            other => panic!("expected a ket, got {:?}", other),
        }
    }
    assert!((450..=550).contains(&zeros), "zeros = {}", zeros);
}

#[test]
fn measurement_frequencies_match_the_weights() {
    // a million samples of the uniform superposition stay within one
    // percent of one half
    let mut zeros: u64 = 0;
    let n: u64 = 1_000_000;
    let sp = Superpos(vec![
        (ket(false), Amp::sqrt_half(false)),
        (ket(true), Amp::sqrt_half(false)),
    ]);
    for _ in 0..n {
        match sp.measure().unwrap() {
            Term::Const(Const::Ket(false)) => zeros += 1,
            Term::Const(Const::Ket(true)) => {}
            other => panic!("expected a ket, got {:?}", other),
        }
    }
    let low = (n as f64 * 0.49) as u64;
    let high = (n as f64 * 0.51) as u64;
    assert!(zeros >= low && zeros <= high, "zeros = {}", zeros);
}

#[test]
fn deep_hadamard_chains_stay_measurable() {
    // each merge puts amplitudes in canonical form, so thirty-one nested
    // Hadamard gates keep the denominator exponent at one and the exact
    // sampler stays in bounds
    let mut t = ket(false);
    for _ in 0..31 {
        t = app(gate("H"), t);
    }
    match eval(app(meas(), t), FUEL) {
        Ok(Value::Term(Term::Const(Const::Ket(_)))) => {}
        other => panic!("expected a ket, got {:?}", other),
    }
}

#[test]
fn an_irreducible_deep_amplitude_overflows_the_sampler() {
    // a surviving branch whose exponent cannot be lowered is past what the
    // exact sampler can scale, so measurement reports overflow
    let sp = Superpos(vec![(ket(false), amp(3, 0, 0, 0, 31))]);
    match sp.measure() {
        Err(EvalError::AmplitudeOverflow) => {}
        other => panic!("expected amplitude overflow, got {:?}", other),
    }
}

#[test]
fn measurement_with_a_fixed_sample_is_deterministic() {
    // the first branch whose cumulative weight strictly exceeds the
    // sample is returned; the smallest sample picks the first branch and
    // the largest picks the last
    let sp = Superpos(vec![
        (ket(false), Amp::sqrt_half(false)),
        (ket(true), Amp::sqrt_half(false)),
    ]);
    assert_eq!(sp.measure_with(0).unwrap(), ket(false));
    assert_eq!(sp.measure_with(u32::MAX).unwrap(), ket(true));
}

#[test]
fn measuring_an_empty_superposition_fails() {
    let sp = Superpos(vec![]);
    assert!(matches!(sp.measure(), Err(EvalError::BadApplication(_))));
}

#[test]
fn amplitudes_reduce_to_canonical_form() {
    let r = amp(4, -2, 6, 0, 5).reduce();
    assert_eq!(r, amp(2, -1, 3, 0, 3));
    // an odd coefficient or a low exponent blocks reduction
    assert_eq!(amp(2, 0, 0, 0, 1).reduce(), amp(2, 0, 0, 0, 1));
}

#[test]
fn merge_is_idempotent_and_sums_duplicates() {
    let sp = Superpos(vec![
        (ket(false), Amp::one()),
        (ket(false), Amp::one()),
        (ket(true), Amp::one()),
    ]);
    let once = sp.merge().unwrap();
    assert_eq!(once.0.len(), 2);
    assert_eq!(once.0[0], (ket(false), amp(2, 0, 0, 0, 0)));
    assert_eq!(once.0[1], (ket(true), amp(1, 0, 0, 0, 0)));
    let twice = once.merge().unwrap();
    assert_eq!(once.0, twice.0);
}

#[test]
fn merge_drops_branches_at_the_weight_threshold() {
    // a weight of 2^-30 is at most a billionth and is dropped; 2^-29 stays
    let sp = Superpos(vec![(ket(false), amp(1, 0, 0, 0, 30))]);
    assert_eq!(sp.merge().unwrap().0.len(), 0);
    let sp = Superpos(vec![(ket(false), amp(1, 0, 0, 0, 29))]);
    assert_eq!(sp.merge().unwrap().0.len(), 1);
}

#[test]
fn merge_drops_cancelled_branches() {
    let sp = Superpos(vec![
        (ket(false), Amp::sqrt_half(false)),
        (ket(false), Amp::sqrt_half(true)),
    ]);
    let merged = sp.merge().unwrap();
    assert_eq!(merged.0.len(), 0);
}
