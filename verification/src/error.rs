use vstd::prelude::*;
use vstd::string::StringExecFns;

verus! {

/// Error type shared by every fallible operation of the library.
///
/// `OutOfRange` reports a numeric quantity (a calendar field, a timestamp,
/// or a day count) that falls outside the representable or calendrically
/// valid range. `InvalidFormat` reports an input that could not be
/// interpreted as the expected shape; the in-process core never produces
/// it, but the variant is part of the error vocabulary that a boundary
/// layer around the library translates.
#[derive(Debug)]
pub enum DateError {
    OutOfRange(String),
    InvalidFormat(String),
}

impl DateError {
    /// The human-readable description carried by the error.
    pub open spec fn spec_message(&self) -> Seq<char> {
        match self {
            DateError::OutOfRange(s) => s@,
            DateError::InvalidFormat(s) => s@,
        }
    }

    /// Returns the human-readable description of what went out of bounds.
    pub fn message(&self) -> (r: &str)
        ensures
            r@ == self.spec_message(),
    {
        match self {
            DateError::OutOfRange(s) => s.as_str(),
            DateError::InvalidFormat(s) => s.as_str(),
        }
    }
}

/// Builds an out-of-range error carrying the given description.
pub fn out_of_range(msg: &str) -> (r: DateError)
    ensures
        r is OutOfRange,
        r.spec_message() == msg@,
{
    DateError::OutOfRange(String::from_str(msg))
}

} // verus!
