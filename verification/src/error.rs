use vstd::prelude::*;
use vstd::string::*;

verus! {

/// What an operation on an index can fail with.
#[derive(Copy, Clone, Debug, PartialEq, Eq, Structural)]
pub enum Error {
    /// A command came with the wrong number of arguments, or a keyword was
    /// not where it belongs.
    WrongArity,
    /// A malformed number, a vector of the wrong dimension, an unknown metric.
    BadArgument,
    /// The name is already taken.
    AlreadyExists,
    /// Nothing goes by the name.
    NotFound,
    /// The node is held by a reader and cannot be deleted now.
    InUse,
    /// A graph invariant is broken; the index takes no further writes.
    InvariantViolation,
    /// A snapshot names something that it does not hold.
    CorruptSnapshot,
}

impl Error {
    /// The text of the message, as a sequence of characters.
    pub open spec fn message(self) -> Seq<char> {
        match self {
            Error::WrongArity => "wrong number of arguments"@,
            Error::BadArgument => "bad argument"@,
            Error::AlreadyExists => "already exists"@,
            Error::NotFound => "does not exist"@,
            Error::InUse => "is being accessed, unable to delete. Try again later"@,
            Error::InvariantViolation => "graph invariant violated"@,
            Error::CorruptSnapshot => "corrupt snapshot"@,
        }
    }

    /// The message that the host shows for this error.
    pub fn error_string(&self) -> (s: String)
        ensures
            s@ == self.message(),
    {
        match self {
            Error::WrongArity => String::from_str("wrong number of arguments"),
            Error::BadArgument => String::from_str("bad argument"),
            Error::AlreadyExists => String::from_str("already exists"),
            Error::NotFound => String::from_str("does not exist"),
            Error::InUse => String::from_str(
                "is being accessed, unable to delete. Try again later",
            ),
            Error::InvariantViolation => String::from_str("graph invariant violated"),
            Error::CorruptSnapshot => String::from_str("corrupt snapshot"),
        }
    }
}

} // verus!
