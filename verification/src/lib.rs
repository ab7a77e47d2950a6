use vstd::prelude::*;

pub mod conf;
pub mod dict;
pub mod eval;
pub mod sim;

verus! {

/// The ways an operation of this library can fail.
#[derive(Clone, Copy, Debug, PartialEq, Eq, Structural)]
pub enum WordleError {
    /// A word was built from input whose length is not five letters.
    InvalidWordLength,
    /// A best guess was requested from a dictionary with no candidates.
    EmptyDictionary,
    /// No candidate avoids every letter of the accumulated feedback.
    NoGuessSatisfiesConstraint,
    /// Solving was requested without a target word.
    MissingRequiredSolution,
    /// The solver reached its turn cap without solving.
    TurnLimitExceeded,
    /// The requested operation name is unknown.
    InvalidOperation,
}

} // verus!
