//! The ways in which an array operation can be refused.

use vstd::prelude::*;

verus! {

/// Why an operation on an array was refused.
///
/// The first four kinds report a caller's mistake: the operation stops at
/// once and hands back nothing else. [`ArrayError::NotImplemented`] marks an
/// operation that is deliberately deferred, so that a caller can branch on it.
#[derive(Debug, Clone, Copy, PartialEq, Eq, Structural)]
pub enum ArrayError {
    /// The element count asked for by a shape is not the length of the buffer.
    ShapeMismatch,
    /// The shapes of two operands do not fit together. `input_check` is set by
    /// the operations that borrow their operands and check them defensively,
    /// and unset by the ones that consume them.
    DimensionMismatch { input_check: bool },
    /// An index is not below the size of its axis, or the number of indices
    /// is not the rank.
    IndexOutOfBounds,
    /// The operation needs an array of another rank.
    RankMismatch,
    /// The operation is deferred.
    NotImplemented,
}

impl ArrayError {
    /// The text of [`ArrayError::message`].
    pub open spec fn message_text(self) -> Seq<char> {
        match self {
            ArrayError::ShapeMismatch => "Shape Mismatch!"@,
            ArrayError::DimensionMismatch { input_check: true } => "Check Input: Dimension Mismatch!"@,
            ArrayError::DimensionMismatch { input_check: false } => "Dimension Mismatch!"@,
            ArrayError::IndexOutOfBounds => "Index Out Of Bounds!"@,
            ArrayError::RankMismatch => "Rank Mismatch!"@,
            ArrayError::NotImplemented => "Not Implemented!"@,
        }
    }

    /// A short description of the error. The two flavours of a dimension
    /// mismatch read differently.
    pub fn message(&self) -> (text: &'static str)
        ensures
            text@ == self.message_text(),
    {
        match self {
            ArrayError::ShapeMismatch => "Shape Mismatch!",
            ArrayError::DimensionMismatch { input_check: true } => "Check Input: Dimension Mismatch!",
            ArrayError::DimensionMismatch { input_check: false } => "Dimension Mismatch!",
            ArrayError::IndexOutOfBounds => "Index Out Of Bounds!",
            ArrayError::RankMismatch => "Rank Mismatch!",
            ArrayError::NotImplemented => "Not Implemented!",
        }
    }

    /// Whether a caller may reasonably go on after this error.
    pub fn is_recoverable(&self) -> (b: bool)
        ensures
            b == (*self == ArrayError::NotImplemented),
    {
        match self {
            ArrayError::NotImplemented => true,
            _ => false,
        }
    }
}

} // verus!
