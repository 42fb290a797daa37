//! The kinds of failure that the grid reports.
use vstd::prelude::*;

verus! {

/// Why a grid operation was refused.
#[derive(Debug, Clone, Copy, PartialEq, Eq, Structural)]
pub enum Error {
    /// The domain yields no cell on at least one axis.
    NumCellsEqualZero,
    /// A position lies below the lower bound of the domain on at least one axis.
    OutOfBounds,
    /// A cell extent is zero or negative on at least one axis.
    InvalidCellSize,
}

impl Error {
    /// What `message` returns.
    pub open spec fn spec_message(&self) -> Seq<char> {
        match self {
            Error::NumCellsEqualZero => "number of cells must be greater than zero"@,
            Error::OutOfBounds => "Placed Entity out of Bounds!"@,
            Error::InvalidCellSize => "cell size must be greater than zero"@,
        }
    }

    /// The error in words.
    pub fn message(&self) -> (s: String)
        ensures
            s@ == self.spec_message(),
    {
        match self {
            Error::NumCellsEqualZero => "number of cells must be greater than zero".to_owned(),
            Error::OutOfBounds => "Placed Entity out of Bounds!".to_owned(),
            Error::InvalidCellSize => "cell size must be greater than zero".to_owned(),
        }
    }
}

} // verus!
