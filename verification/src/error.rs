use vstd::prelude::*;

verus! {

/// A failure of a query-value operation.
///
/// All failures are data returned to the caller; nothing in this crate
/// panics or aborts.
#[derive(Debug, PartialEq, Eq)]
pub enum Error {
    /// The receiver is not a collection of the kind the operation addresses
    /// (an array or object; for slicing, an array or string).
    NotCollection,
    /// An object key could not be read as a string.
    KeyNotString,
    /// An array index could not be read as an integer.
    IndexNotInteger,
    /// A number literal did not parse as a number.
    NumberFormat { text: String },
    /// A resolved array position lies outside the array.
    IndexOutOfBounds { index: i64 },
    /// A negative slice bound's magnitude exceeds the collection length.
    RangeBound,
    /// The two operands of a merge have no common interpretation.
    Incompatible,
}

/// The description each failure reads as.
pub open spec fn message_of(e: Error) -> Seq<char> {
    match e {
        Error::NotCollection => "value is not a collection"@,
        Error::KeyNotString => "key cannot be read as a string"@,
        Error::IndexNotInteger => "index cannot be read as an integer"@,
        Error::NumberFormat { .. } => "invalid number format"@,
        Error::IndexOutOfBounds { .. } => "index out of bounds"@,
        Error::RangeBound => "bound out of representable range"@,
        Error::Incompatible => "cannot combine values of these kinds"@,
    }
}

impl Error {
    /// A human-readable description of the failure.
    pub fn message(&self) -> (r: String)
        ensures
            r@ == message_of(*self),
    {
        let s: &str = match self {
            Error::NotCollection => "value is not a collection",
            Error::KeyNotString => "key cannot be read as a string",
            Error::IndexNotInteger => "index cannot be read as an integer",
            Error::NumberFormat { .. } => "invalid number format",
            Error::IndexOutOfBounds { .. } => "index out of bounds",
            Error::RangeBound => "bound out of representable range",
            Error::Incompatible => "cannot combine values of these kinds",
        };
        s.to_owned()
    }
}

} // verus!
