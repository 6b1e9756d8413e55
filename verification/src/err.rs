//! The errors of the library: what went wrong, and the message that is handed
//! to the caller.

use vstd::prelude::*;
use vstd::string::StringExecFns;

verus! {

/// An error with a human-readable message.
#[derive(Debug)]
pub struct ProjectorError {
    msg: String,
}

impl View for ProjectorError {
    type V = Seq<char>;

    /// The message the error was made with.
    closed spec fn view(&self) -> Seq<char> {
        self.msg@
    }
}

impl ProjectorError {
    /// Makes an error that carries `msg`.
    pub fn new(msg: &str) -> (e: ProjectorError)
        ensures
            e@ == msg@,
    {
        ProjectorError { msg: String::from_str(msg) }
    }

    /// The message of this error.
    pub fn msg(&self) -> (msg: &str)
        ensures
            msg@ == self@,
    {
        self.msg.as_str()
    }

    /// The text shown for this error: a fixed prefix followed by the message.
    pub fn message(&self) -> (s: String)
        ensures
            s@ == "ProjectorError: "@ + self@,
    {
        String::from_str("ProjectorError: ").concat(self.msg.as_str())
    }
}

/// What went wrong.
#[derive(Clone, Copy, Debug, PartialEq, Eq, Structural)]
pub enum ErrorKind {
    /// Line `line` of a mesh file, counted from one, is not a record.
    ParseError { line: usize },
    /// Face `face` of a mesh, counted from zero, names a vertex or a normal
    /// that the mesh does not hold.
    IndexOutOfRange { face: usize },
    /// The pixel grid has no pixel or more than can be addressed, or a mode
    /// token names no projection.
    InvalidConfiguration,
}

impl ErrorKind {
    /// What is said of this kind of error to a reader.
    pub open spec fn text(&self) -> Seq<char> {
        match self {
            ErrorKind::ParseError { .. } => "Invalid object file!"@,
            ErrorKind::IndexOutOfRange { .. } => "Face index out of range"@,
            ErrorKind::InvalidConfiguration => "Invalid configuration"@,
        }
    }

    /// The error to hand on, with its message.
    pub fn to_error(&self) -> (e: ProjectorError)
        ensures
            e@ == self.text(),
    {
        match self {
            ErrorKind::ParseError { .. } => ProjectorError::new("Invalid object file!"),
            ErrorKind::IndexOutOfRange { .. } => ProjectorError::new("Face index out of range"),
            ErrorKind::InvalidConfiguration => ProjectorError::new("Invalid configuration"),
        }
    }
}

} // verus!
