//! The error taxonomy of the codec.

use vstd::prelude::*;

verus! {

/// The category of a decode or encode failure.
#[derive(Clone, Copy, Debug, PartialEq, Eq, Structural)]
pub enum ErrorKind {
    /// The input is not recognizable as this format at all; fatal under any policy.
    Invalid,
    /// The input is structurally recognizable but violates a format rule;
    /// fatal under the strict policy, tolerated under the lenient policy.
    Malformed,
    /// An encode-side size exceeds a wire-format limit.
    InvalidInput,
}

/// An error produced while decoding or encoding a file, carrying its
/// category and a short description of the rule that failed.
#[derive(Clone, Copy, Debug)]
pub struct MidiError {
    pub kind: ErrorKind,
    pub message: &'static str,
}

impl MidiError {
    pub fn invalid(message: &'static str) -> (r: MidiError)
        ensures
            r.kind == ErrorKind::Invalid,
            r.message == message,
    {
        MidiError { kind: ErrorKind::Invalid, message }
    }

    pub fn malformed(message: &'static str) -> (r: MidiError)
        ensures
            r.kind == ErrorKind::Malformed,
            r.message == message,
    {
        MidiError { kind: ErrorKind::Malformed, message }
    }

    pub fn invalid_input(message: &'static str) -> (r: MidiError)
        ensures
            r.kind == ErrorKind::InvalidInput,
            r.message == message,
    {
        MidiError { kind: ErrorKind::InvalidInput, message }
    }

    /// The category of this error.
    pub fn kind(&self) -> (r: ErrorKind)
        ensures
            r == self.kind,
    {
        self.kind
    }

    /// A short description of the rule that failed.
    pub fn message(&self) -> (r: &'static str)
        ensures
            r == self.message,
    {
        self.message
    }
}

} // verus!
