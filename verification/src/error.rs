use vstd::prelude::*;

verus! {

/// The error kinds an operation on the object model can report.
///
/// Structural absence (a missing array index, dictionary key, or object id)
/// is never an error: those operations return `Option` instead.
#[derive(Debug, Clone, Copy, PartialEq, Eq, Structural)]
pub enum QpdfError {
    /// The operation requires an object type the handle does not have.
    TypeMismatch,
    /// Malformed textual input; carries the character position where
    /// parsing stopped.
    ParseError { position: usize },
    /// An encrypted document was opened with a missing or wrong password.
    AuthenticationError,
    /// A stream's declared filters cannot be decoded.
    DecodeError,
}

} // verus!
