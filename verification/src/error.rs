use vstd::prelude::*;

verus! {

/// Format error encountered while attempting to build a `Matrix`.
///
/// All three conditions are recoverable: they are returned to the caller
/// as the `Err` case of a `Result` and never abort the process.
#[derive(Clone, Copy, Debug, PartialEq, Eq, Structural)]
pub enum MatrixFormatError {
    /// Attempt to build a matrix containing an empty row.
    EmptyRow,
    /// Attempt to access elements not inside the matrix.
    WrongIndex,
    /// Attempt to build a matrix or a row from data with the wrong length.
    WrongLength,
}

impl MatrixFormatError {
    /// A human-readable description of the error.
    pub fn message(&self) -> (r: &'static str)
        ensures
            r@ == self.message_spec(),
    {
        match self {
            MatrixFormatError::EmptyRow => "matrix rows cannot be empty",
            MatrixFormatError::WrongIndex => "index does not point to data inside the matrix",
            MatrixFormatError::WrongLength => "provided data does not correspond to the expected length",
        }
    }

    /// What `message` returns for each variant.
    pub open spec fn message_spec(&self) -> Seq<char> {
        match self {
            MatrixFormatError::EmptyRow => "matrix rows cannot be empty"@,
            MatrixFormatError::WrongIndex => "index does not point to data inside the matrix"@,
            MatrixFormatError::WrongLength => "provided data does not correspond to the expected length"@,
        }
    }
}

} // verus!
