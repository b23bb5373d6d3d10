use vstd::prelude::*;

verus! {

/// Why a computation was refused. Nothing is ever reported through a
/// sentinel value: a function either returns what its contract states or one
/// of these.
#[derive(Clone, Copy, Debug, PartialEq, Eq, Structural)]
pub enum SensorError {
    /// An argument lies outside its documented physical domain.
    PreconditionViolation,
    /// The wavelength belongs to no band of the instrument.
    OutOfDomain,
    /// A denominator or a logarithm argument derived from the arguments
    /// vanishes although each argument is admissible on its own.
    DegenerateInput,
}

impl SensorError {
    /// A short description for logs and messages.
    pub fn message(&self) -> (text: &'static str)
        ensures
            text@.len() > 0,
            (text@ == "precondition violation"@) == (*self == SensorError::PreconditionViolation),
            (text@ == "out of domain"@) == (*self == SensorError::OutOfDomain),
            (text@ == "degenerate input"@) == (*self == SensorError::DegenerateInput),
    {
        proof {
            reveal_strlit("precondition violation");
            reveal_strlit("out of domain");
            reveal_strlit("degenerate input");
        }
        match self {
            SensorError::PreconditionViolation => "precondition violation",
            SensorError::OutOfDomain => "out of domain",
            SensorError::DegenerateInput => "degenerate input",
        }
    }
}

} // verus!
