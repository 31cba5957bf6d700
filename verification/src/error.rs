use vstd::prelude::*;

verus! {

/// Why a grid or a simulation could not be built, or a generation could not
/// be committed.
#[derive(Clone, Copy, Debug, PartialEq, Eq, Structural)]
pub enum GameError {
    /// A grid was asked for with no rows, with no columns, or with more
    /// cells than can be addressed.
    InvalidDimensions,
    /// The initial state is not a rectangular array of cells that are 0 or 1.
    MalformedInput,
    /// The partitioned strategy was asked for with no workers.
    InvalidWorkerCount,
    /// A worker did not hand back the chunk it was given.
    WorkerFault,
}

impl GameError {
    /// A short description, for reports to a user.
    pub fn message(&self) -> (text: &'static str)
        ensures
            text@ == match *self {
                GameError::InvalidDimensions => "invalid dimensions"@,
                GameError::MalformedInput => "malformed input"@,
                GameError::InvalidWorkerCount => "invalid worker count"@,
                GameError::WorkerFault => "worker fault"@,
            },
    {
        match self {
            GameError::InvalidDimensions => "invalid dimensions",
            GameError::MalformedInput => "malformed input",
            GameError::InvalidWorkerCount => "invalid worker count",
            GameError::WorkerFault => "worker fault",
        }
    }
}

} // verus!
