//! The ways in which decoding a message can fail.

use vstd::prelude::*;

verus! {

/// A typed decode failure.
#[derive(Debug, Clone, Copy, PartialEq, Eq, Structural)]
pub enum ParseError {
    /// A resource record carries a class code other than IN, CS, CH or HS.
    InvalidClass,
    /// A code or a token names no known record type.
    InvalidRRType,
    /// A question carries a type code that is neither a known record type
    /// nor one of the query-only types.
    InvalidQType,
    /// A compression pointer does not point strictly backward.
    PointerForward,
    /// A chain of backward compression pointers never reaches the end of the name.
    PointerLoop,
    /// The message ends before the field that is being read.
    OutOfRange,
    /// A length byte whose two top bits are `01` or `10`.
    UnimplementedNameType,
    /// A label or a text payload is not valid UTF-8.
    InvalidUtf8,
}

/// A decoder's result holds the value that the wire format defines, or fails
/// with the error that it defines.
pub open spec fn decoded<T: View>(r: Result<T, ParseError>, m: Result<T::V, ParseError>) -> bool {
    match r {
        Ok(v) => m == Ok::<T::V, ParseError>(v@),
        Err(e) => m == Err::<T::V, ParseError>(e),
    }
}

/// As `decoded`, for a decoder that also reports where the next field starts.
pub open spec fn decoded_at<T: View>(
    r: Result<(T, usize), ParseError>,
    m: Result<(T::V, int), ParseError>,
) -> bool {
    match r {
        Ok((v, next)) => m == Ok::<(T::V, int), ParseError>((v@, next as int)),
        Err(e) => m == Err::<(T::V, int), ParseError>(e),
    }
}

impl ParseError {
    /// The text by which the failure is reported: the variant's name.
    pub open spec fn text(self) -> Seq<char> {
        match self {
            ParseError::InvalidClass => "InvalidClass"@,
            ParseError::InvalidRRType => "InvalidRRType"@,
            ParseError::InvalidQType => "InvalidQType"@,
            ParseError::PointerForward => "PointerForward"@,
            ParseError::PointerLoop => "PointerLoop"@,
            ParseError::OutOfRange => "OutOfRange"@,
            ParseError::UnimplementedNameType => "UnimplementedNameType"@,
            ParseError::InvalidUtf8 => "InvalidUtf8"@,
        }
    }

    /// The name of the failure.
    pub fn description(&self) -> (s: &'static str)
        ensures
            s@ == self.text(),
    {
        match self {
            ParseError::InvalidClass => "InvalidClass",
            ParseError::InvalidRRType => "InvalidRRType",
            ParseError::InvalidQType => "InvalidQType",
            ParseError::PointerForward => "PointerForward",
            ParseError::PointerLoop => "PointerLoop",
            ParseError::OutOfRange => "OutOfRange",
            ParseError::UnimplementedNameType => "UnimplementedNameType",
            ParseError::InvalidUtf8 => "InvalidUtf8",
        }
    }

    /// The name of the failure, as text of its own.
    pub fn to_string(&self) -> (s: String)
        ensures
            s@ == self.text(),
    {
        self.description().to_owned()
    }
}

} // verus!
