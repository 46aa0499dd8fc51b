//! The error type carried by fallible operations around the runner.

use vstd::prelude::*;
use vstd::string::StringExecFns;

verus! {

/// An error with a human-readable message.
#[derive(Debug, Clone)]
pub struct MrtError {
    msg: String,
}

impl MrtError {
    /// The message this error carries.
    pub closed spec fn spec_message(&self) -> Seq<char> {
        self.msg@
    }

    /// Build an error from a borrowed message.
    pub fn new(msg: &str) -> (e: MrtError)
        ensures
            e.spec_message() == msg@,
    {
        MrtError { msg: String::from_str(msg) }
    }

    /// Build an error from an owned message.
    pub fn from_string(msg: String) -> (e: MrtError)
        ensures
            e.spec_message() == msg@,
    {
        MrtError { msg }
    }

    /// Read the message back.
    pub fn message(&self) -> (m: &String)
        ensures
            m@ == self.spec_message(),
    {
        &self.msg
    }
}

} // verus!
