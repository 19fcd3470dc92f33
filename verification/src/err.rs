//! The errors of the load balancer.

use vstd::prelude::*;
use vstd::string::StringExecFns;

verus! {

/// An error of the load balancer; each carries a description.
#[derive(Debug, Clone, PartialEq, Eq)]
pub enum LBError {
    /// Error in FromExt node that is fatal.
    FromExt(String),
    /// Error in server node that is fatal.
    InternalThrow(String),
    /// Error from user's input that is fatal.
    UserError(String),
}

/// The text that describes an error, as it is shown to the user.
pub open spec fn error_text(e: LBError) -> Seq<char> {
    match e {
        LBError::FromExt(s) => "Load Balancer error: "@ + s@,
        LBError::InternalThrow(s) => "Load Balancer error: "@ + s@,
        LBError::UserError(s) => "Bad input, user error: "@ + s@,
    }
}

/// The description an error carries.
pub open spec fn error_detail(e: LBError) -> Seq<char> {
    match e {
        LBError::FromExt(s) => s@,
        LBError::InternalThrow(s) => s@,
        LBError::UserError(s) => s@,
    }
}

/// The error that an absent value is turned into.
pub open spec fn is_none_error(e: LBError) -> bool {
    e is FromExt && error_detail(e) == "Expected Some found None"@
}

/// The error that an empty error value is turned into.
pub open spec fn is_empty_error(e: LBError) -> bool {
    e is FromExt && error_detail(e) == "Empty Error"@
}

impl LBError {
    /// The text of the error as it is shown to the user.
    pub fn message(&self) -> (s: String)
        ensures
            s@ == error_text(*self),
    {
        match self {
            LBError::FromExt(d) => String::from_str("Load Balancer error: ").concat(d.as_str()),
            LBError::InternalThrow(d) => String::from_str("Load Balancer error: ").concat(d.as_str()),
            LBError::UserError(d) => String::from_str("Bad input, user error: ").concat(d.as_str()),
        }
    }

    /// The error that an absent value (a `None` where `Some` was expected)
    /// is turned into.
    pub fn from_none() -> (e: LBError)
        ensures
            is_none_error(e),
    {
        LBError::FromExt(String::from_str("Expected Some found None"))
    }

    /// The error that an outside error (an I/O error, or a message that
    /// could not be sent) is turned into: it carries the outside error's
    /// description.
    pub fn from_description(d: String) -> (e: LBError)
        ensures
            e == LBError::FromExt(d),
    {
        LBError::FromExt(d)
    }

    /// The error that an empty error value `()` is turned into.
    pub fn from_empty(_e: ()) -> (e: LBError)
        ensures
            is_empty_error(e),
    {
        LBError::FromExt(String::from_str("Empty Error"))
    }
}

} // verus!
