//! The one error type of the CLI and the exit codes it maps to.

use vstd::prelude::*;

verus! {

/// What went wrong, which decides the exit code.
#[derive(Clone, Copy, Debug, PartialEq, Eq, Structural)]
pub enum ErrorKind {
    /// The invocation itself was wrong (exit code 2); help is shown after it.
    Usage,
    /// The configuration could not be used (exit code 3).
    Config,
    /// The invocation was fine, the work failed (exit code 1).
    Runtime,
}

/// An error with the message that is shown to the operator.
#[derive(Debug)]
pub struct CliError {
    pub kind: ErrorKind,
    pub message: String,
}

impl Clone for CliError {
    fn clone(&self) -> (e: Self)
        ensures
            e@ == self@,
    {
        CliError { kind: self.kind, message: self.message.clone() }
    }
}

impl View for CliError {
    type V = (ErrorKind, Seq<char>);

    open spec fn view(&self) -> (ErrorKind, Seq<char>) {
        (self.kind, self.message@)
    }
}

/// The exit code of each kind of error.
pub open spec fn kind_exit_code(kind: ErrorKind) -> i32 {
    match kind {
        ErrorKind::Usage => 2,
        ErrorKind::Config => 3,
        ErrorKind::Runtime => 1,
    }
}

impl CliError {
    /// An invocation error.
    pub fn usage(message: String) -> (e: CliError)
        ensures
            e@ == (ErrorKind::Usage, message@),
    {
        CliError { kind: ErrorKind::Usage, message }
    }

    /// A configuration error.
    pub fn config(message: String) -> (e: CliError)
        ensures
            e@ == (ErrorKind::Config, message@),
    {
        CliError { kind: ErrorKind::Config, message }
    }

    /// A failure of the work itself.
    pub fn runtime(message: String) -> (e: CliError)
        ensures
            e@ == (ErrorKind::Runtime, message@),
    {
        CliError { kind: ErrorKind::Runtime, message }
    }

    /// The process exit code for this error: 2 usage, 3 configuration, 1 runtime.
    pub fn exit_code(&self) -> (code: i32)
        ensures
            code == kind_exit_code(self.kind),
    {
        match self.kind {
            ErrorKind::Usage => 2,
            ErrorKind::Config => 3,
            ErrorKind::Runtime => 1,
        }
    }

    /// Whether the help table should follow the message: only for usage errors.
    pub fn wants_help(&self) -> (b: bool)
        ensures
            b == (self.kind == ErrorKind::Usage),
    {
        match self.kind {
            ErrorKind::Usage => true,
            _ => false,
        }
    }
}

} // verus!
