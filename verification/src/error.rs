//! The conditions on which a pass gives up.

use vstd::prelude::*;
use vstd::string::StringExecFns;

verus! {

/// Why a pass could not complete. All of them are fatal to the run.
#[derive(Clone, Copy, Debug, PartialEq, Eq, Structural)]
pub enum Error {
    /// No function is exported under the name `_start`.
    MissingStart,
    /// The signature that a stub is built for is not the one its type id
    /// resolves to, or the callees of one site do not share a signature.
    TypeMismatch,
    /// The profile names a table slot outside the element segment, or one
    /// that holds no function.
    TargetOutOfRange,
    /// The module has a call site that the profile does not cover.
    MissingSite,
    /// A site index does not fit a 32-bit constant, or a rewritten sequence
    /// would outgrow the address space.
    TooManySites,
}

impl Error {
    /// The condition in words.
    pub open spec fn text(self) -> Seq<char> {
        match self {
            Error::MissingStart => "no function is exported as _start"@,
            Error::TypeMismatch => "type mismatch when creating stubs"@,
            Error::TargetOutOfRange => "the profile names a table slot that holds no function"@,
            Error::MissingSite => "the profile does not cover every call site"@,
            Error::TooManySites => "the module has more call sites than can be indexed"@,
        }
    }

    /// The condition in words, for a message to the user.
    pub fn message(&self) -> (text: String)
        ensures
            text@ == self.text(),
    {
        match self {
            Error::MissingStart => String::from_str("no function is exported as _start"),
            Error::TypeMismatch => String::from_str("type mismatch when creating stubs"),
            Error::TargetOutOfRange => String::from_str(
                "the profile names a table slot that holds no function",
            ),
            Error::MissingSite => String::from_str("the profile does not cover every call site"),
            Error::TooManySites => String::from_str(
                "the module has more call sites than can be indexed",
            ),
        }
    }
}

} // verus!
