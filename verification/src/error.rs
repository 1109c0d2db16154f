use vstd::prelude::*;

verus! {

/// Why a parse was given up.
#[derive(Debug, Clone, Copy, PartialEq, Eq, Structural)]
pub enum ErrorKind {
    /// The input ended where a value, a delimiter or a closing bracket was due.
    UnexpectedEndOfInput,
    /// A character that cannot start a value, a misspelt literal, or a
    /// character where a delimiter was due.
    UnexpectedCharacter,
    /// A string without its closing quote, or one that ends in a backslash.
    UnterminatedString,
    /// A numeral with a second decimal point.
    MalformedNumber,
    /// An object key that is not a string.
    NonStringKey,
}

/// A failed parse: the kind of failure and a message for people to read.
#[derive(Debug)]
pub struct ParseJSONError {
    kind: ErrorKind,
    error: String,
}

/// The mathematical content of a [`ParseJSONError`].
pub ghost struct Failure {
    pub kind: ErrorKind,
    pub message: Seq<char>,
}

/// The failure of the given kind with the given message.
pub open spec fn failure(kind: ErrorKind, message: &str) -> Failure {
    Failure { kind, message: message@ }
}

impl View for ParseJSONError {
    type V = Failure;

    closed spec fn view(&self) -> Failure {
        Failure { kind: self.kind, message: self.error@ }
    }
}

impl ParseJSONError {
    /// An error of the given kind with the given diagnostic text.
    pub fn new(kind: ErrorKind, message: &str) -> (e: ParseJSONError)
        ensures
            e@ == failure(kind, message),
    {
        ParseJSONError { kind, error: message.to_owned() }
    }

    /// The kind of failure.
    pub fn kind(&self) -> (k: ErrorKind)
        ensures
            k == self@.kind,
    {
        self.kind
    }

    /// The diagnostic text.
    pub fn message(&self) -> (m: &str)
        ensures
            m@ == self@.message,
    {
        self.error.as_str()
    }
}

} // verus!
