//! The error kinds of the evaluator.  Each carries a human-readable payload
//! that is never used for control flow.

use vstd::prelude::*;

verus! {

/// An evaluation failure.
#[derive(Debug, Clone)]
pub enum EvalError {
    /// Beta-reduction was attempted on a non-lambda left side, or a
    /// duplicable lambda was applied to an argument that is not a bang
    /// suspension.
    BadApplication(String),
    /// A gate was applied to the wrong arity or to a non-ket operand, or the
    /// gate symbol is unknown.
    BadGate(String),
    /// A free identifier survived environment expansion and stood where it
    /// would be applied.
    UndefinedSymbol(String),
    /// A linear variable was unused, duplicated, or escaped into a bang
    /// suspension.
    LinearityViolation(String),
    /// The exact amplitude arithmetic left the range of its coefficient
    /// type.
    AmplitudeOverflow,
    /// The step bound handed to the evaluator ran out before the term was
    /// reduced.
    StepLimit,
}

/// The model of an evaluation failure.
pub enum ErrX {
    BadApplication(Seq<char>),
    BadGate(Seq<char>),
    UndefinedSymbol(Seq<char>),
    LinearityViolation(Seq<char>),
    AmplitudeOverflow,
    StepLimit,
}

impl View for EvalError {
    type V = ErrX;

    open spec fn view(&self) -> ErrX {
        match self {
            EvalError::BadApplication(m) => ErrX::BadApplication(m@),
            EvalError::BadGate(m) => ErrX::BadGate(m@),
            EvalError::UndefinedSymbol(m) => ErrX::UndefinedSymbol(m@),
            EvalError::LinearityViolation(m) => ErrX::LinearityViolation(m@),
            EvalError::AmplitudeOverflow => ErrX::AmplitudeOverflow,
            EvalError::StepLimit => ErrX::StepLimit,
        }
    }
}

} // verus!
