//! Error kinds exposed to users of the engine.

use vstd::prelude::*;

verus! {

/// The only two kinds a per-request failure is reported under: a per-request
/// timeout, and everything else (transport, parse, resolution, channel).
#[derive(Clone, Copy, Debug, PartialEq, Eq, Structural)]
pub enum ErrorKind {
    Timeout,
    Other,
}

/// A per-request error: the kind that is serialized, and a human-readable
/// message kept for logging.
#[derive(Debug, PartialEq)]
pub struct Error {
    pub kind: ErrorKind,
    pub message: String,
}

impl Clone for Error {
    fn clone(&self) -> (r: Self)
        ensures
            r == *self,
    {
        Error { kind: self.kind, message: self.message.clone() }
    }
}

impl Error {
    pub fn new(kind: ErrorKind, message: String) -> (r: Error)
        ensures
            r.kind == kind,
            r.message == message,
    {
        Error { kind, message }
    }

    pub fn timeout() -> (r: Error)
        ensures
            r.kind == ErrorKind::Timeout,
    {
        Error { kind: ErrorKind::Timeout, message: String::new() }
    }

    pub fn other(message: String) -> (r: Error)
        ensures
            r.kind == ErrorKind::Other,
            r.message == message,
    {
        Error { kind: ErrorKind::Other, message }
    }

    pub fn kind(&self) -> (r: ErrorKind)
        ensures
            r == self.kind,
    {
        self.kind
    }

    /// The human-readable cause, for logging.
    pub fn message(&self) -> (r: &str)
        ensures
            r@ == self.message@,
    {
        self.message.as_str()
    }
}

} // verus!
