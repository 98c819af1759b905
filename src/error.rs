use vstd::prelude::*;

verus! {

/// The ways in which encoding or decoding can fail.
#[derive(Clone, Copy, Debug, PartialEq, Eq, Structural)]
pub enum ErrorKind {
    /// Fewer bytes are available than a declared or required field needs.
    TruncatedInput,
    /// A type or width nibble matches no known encoding.
    InvalidHeader,
    /// A string payload or a name is not valid UTF-8.
    InvalidUtf8,
    /// A string, array or name is empty: the format cannot represent it.
    EmptyCollection,
    /// A decoded 64-bit count does not fit in the platform's `usize`.
    LengthOverflow,
    /// A key or row chunk lacks its start or end sentinel, or has bytes left over.
    MalformedBoundary,
    /// A name chunk does not carry the key-name or row-name marker.
    MalformedName,
    /// The leading five bytes of a document are absent or misformatted.
    MalformedVersion,
    /// A value was read as a type that it does not hold.
    WrongType,
}

/// The error type of every fallible operation of the library.
#[derive(Clone, Copy, Debug, PartialEq, Eq, Structural)]
pub struct ErrorMessage {
    pub kind: ErrorKind,
}

impl ErrorMessage {
    pub fn new(kind: ErrorKind) -> (r: ErrorMessage)
        ensures
            r.kind == kind,
    {
        ErrorMessage { kind }
    }

    /// A human-readable description of the error.
    pub fn message(&self) -> &'static str {
        match self.kind {
            ErrorKind::TruncatedInput => "Not enough bytes",
            ErrorKind::InvalidHeader => "The header byte matches no known type or width",
            ErrorKind::InvalidUtf8 => "The provided bytes are not valid UTF-8",
            ErrorKind::EmptyCollection => "Strings, arrays and names must hold at least one item",
            ErrorKind::LengthOverflow => "The declared length does not fit in this platform's usize",
            ErrorKind::MalformedBoundary => "The chunk lacks its start or end marker",
            ErrorKind::MalformedName => "The name chunk carries the wrong marker",
            ErrorKind::MalformedVersion => "The version header is missing or malformed",
            ErrorKind::WrongType => "The value does not hold the requested type",
        }
    }
}

/// Shorthand for an error result of the given kind.
pub open spec fn fails<T>(r: Result<T, ErrorMessage>, kind: ErrorKind) -> bool {
    r matches Err(e) && e.kind == kind
}

} // verus!
