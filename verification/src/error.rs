//! The error taxonomy of the call surface.
//!
//! Every failure of a run is one of these kinds; all are terminal for the
//! current run and none is retried.
use vstd::prelude::*;

verus! {

/// The ghost counterpart of [`CallError`]: payload text as `Seq<char>`,
/// so that specification functions can build and compare errors.
pub ghost enum ErrModel {
    /// Malformed call-expression text.
    Syntax,
    /// Unusable or malformed artifact metadata.
    Schema,
    /// A literal that does not fit the expected type shape.
    TypeMismatch,
    /// A numeric literal outside the range of the target width.
    Range,
    /// An invalid escape sequence or codepoint in a string or char literal.
    Literal,
    /// A record or flags key that the schema does not declare.
    UnknownField(Seq<char>),
    /// A record key given twice.
    DuplicateField(Seq<char>),
    /// A declared record field that the literal does not supply.
    MissingField(Seq<char>),
    /// An export name the artifact does not declare.
    NotFound(Seq<char>),
    /// The completion cursor is not inside a recognizable literal context.
    NoCompletions,
    /// A boundary-level fault (trap, resource exhaustion) during the call.
    Invocation,
}

/// A failure of parsing, binding, completing or invoking.
#[derive(Clone, Debug, PartialEq, Eq)]
pub enum CallError {
    /// Malformed call-expression text.
    Syntax,
    /// Unusable or malformed artifact metadata.
    Schema,
    /// A literal that does not fit the expected type shape.
    TypeMismatch,
    /// A numeric literal outside the range of the target width.
    Range,
    /// An invalid escape sequence or codepoint in a string or char literal.
    Literal,
    /// A record or flags key that the schema does not declare.
    UnknownField(Vec<char>),
    /// A record key given twice.
    DuplicateField(Vec<char>),
    /// A declared record field that the literal does not supply.
    MissingField(Vec<char>),
    /// An export name the artifact does not declare.
    NotFound(Vec<char>),
    /// The completion cursor is not inside a recognizable literal context.
    NoCompletions,
    /// A boundary-level fault (trap, resource exhaustion) during the call.
    Invocation,
}

impl CallError {
    /// The mathematical model of this error.
    pub open spec fn model(self) -> ErrModel {
        match self {
            CallError::Syntax => ErrModel::Syntax,
            CallError::Schema => ErrModel::Schema,
            CallError::TypeMismatch => ErrModel::TypeMismatch,
            CallError::Range => ErrModel::Range,
            CallError::Literal => ErrModel::Literal,
            CallError::UnknownField(n) => ErrModel::UnknownField(n@),
            CallError::DuplicateField(n) => ErrModel::DuplicateField(n@),
            CallError::MissingField(n) => ErrModel::MissingField(n@),
            CallError::NotFound(n) => ErrModel::NotFound(n@),
            CallError::NoCompletions => ErrModel::NoCompletions,
            CallError::Invocation => ErrModel::Invocation,
        }
    }
}

} // verus!
