//! The kinds of failure that the store and the command language report.
use vstd::prelude::*;

verus! {

/// A failed command or store operation.
#[derive(Debug, Clone, Copy, PartialEq, Eq, Structural)]
pub enum Error {
    /// The command text is malformed.
    SyntaxError,
    /// The command's verb is not known.
    UnknownCommand,
    /// An append found every slot of the store occupied.
    StoreFull,
    /// A slot could not be read back: the store's invariant is broken.
    InternalError,
}

impl Error {
    /// The human-readable name of the error kind.
    pub fn message(&self) -> (s: &'static str)
        ensures
            *self == Error::SyntaxError ==> s@ == "Syntax error"@,
            *self == Error::UnknownCommand ==> s@ == "Unknown command"@,
            *self == Error::StoreFull ==> s@ == "Store full"@,
            *self == Error::InternalError ==> s@ == "Internal error"@,
    {
        match self {
            Error::SyntaxError => "Syntax error",
            Error::UnknownCommand => "Unknown command",
            Error::StoreFull => "Store full",
            Error::InternalError => "Internal error",
        }
    }
}

} // verus!
