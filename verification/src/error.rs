//! The library's error taxonomy and the message arguments that callers
//! hand to their result printers.

use vstd::prelude::*;

verus! {

/// An expected, recoverable failure: bad interactive input, a malformed
/// number, a cancelled flow, or a failed external effect reported by its
/// collaborator as a message.
#[derive(Debug, Clone, PartialEq, Eq)]
pub enum NormalError {
    /// A required input token was missing or unusable.
    Input,
    /// A numeric field did not parse or lay outside its range.
    NumberFormat,
    /// The user cancelled the flow.
    Cancelled,
    /// Running a command failed; the message says how.
    Execution(String),
    /// Playing audio failed; the message says how.
    Play(String),
    /// Raising a notification failed; the message says how.
    Notify(String),
}

/// What to print about a result: an optional message for success and a
/// message for failure.
pub struct PrintingArgs {
    pub ok_message: Option<String>,
    pub err_message: String,
}

impl PrintingArgs {
    /// Arguments for reporting an unexpected error.
    pub fn unexpected() -> (r: Self)
        ensures
            r.ok_message is None,
            r.err_message@ == "错误"@,
    {
        PrintingArgs { ok_message: None, err_message: "错误".to_owned() }
    }

    /// Arguments for reporting an expected, recoverable problem.
    pub fn normal() -> (r: Self)
        ensures
            r.ok_message is None,
            r.err_message@ == "遇到了问题"@,
    {
        PrintingArgs { ok_message: None, err_message: "遇到了问题".to_owned() }
    }

    /// Arguments with a caller-chosen failure message.
    pub fn customized(err_message: &str) -> (r: Self)
        ensures
            r.ok_message is None,
            r.err_message@ == err_message@,
    {
        PrintingArgs { ok_message: None, err_message: err_message.to_owned() }
    }

    /// The same arguments with a success message added.
    pub fn ok_message(self, message: &str) -> (r: Self)
        ensures
            r.ok_message matches Some(m) && m@ == message@,
            r.err_message == self.err_message,
    {
        PrintingArgs { ok_message: Some(message.to_owned()), err_message: self.err_message }
    }

    /// The same arguments with the failure message replaced.
    pub fn err_message(self, message: &str) -> (r: Self)
        ensures
            r.ok_message == self.ok_message,
            r.err_message@ == message@,
    {
        PrintingArgs { ok_message: self.ok_message, err_message: message.to_owned() }
    }
}

} // verus!
