//! The failures of a translation run. Every one of them aborts the run.
use vstd::prelude::*;

verus! {

/// What went wrong.
#[derive(Clone, Copy, Debug, PartialEq, Eq, Structural)]
pub enum ErrorKind {
    /// A source line does not match the supported grammar.
    Syntax,
    /// An instruction's arguments do not have the shape its mnemonic requires.
    ShapeMismatch,
    /// The mnemonic is not in the translation table.
    UnsupportedMnemonic,
    /// A recognised mnemonic is used with a value outside its supported range.
    UnsupportedEncoding,
}

/// A failure, with the text it concerns: the offending line for a syntax
/// error, the mnemonic for the others.
#[derive(Debug)]
pub struct Error {
    pub kind: ErrorKind,
    pub subject: String,
}

impl View for Error {
    type V = (ErrorKind, Seq<char>);

    open spec fn view(&self) -> (ErrorKind, Seq<char>) {
        (self.kind, self.subject@)
    }
}

impl Error {
    pub fn new(kind: ErrorKind, subject: &str) -> (r: Error)
        ensures
            r@ == (kind, subject@),
    {
        Error { kind, subject: String::from_str(subject) }
    }
}

} // verus!
