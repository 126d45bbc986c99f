use vstd::prelude::*;

verus! {

/// The ways a parse can fail.  All failures are returned as values; nothing
/// aborts the process.
///
/// - `EOF`: the input ran out while a record was still open (a start tag was
///   seen, but no matching end tag followed before the end of the buffer).
/// - `UnknownTag`: a tag handed to a record builder had the wrong width or was
///   not in the set of allowed tags.
/// - `ParserError`: a line inside an open record did not begin with a
///   recognized tag, or a tag or content span was not valid UTF-8.
#[derive(Debug, Clone, PartialEq, Eq)]
pub enum Error {
    EOF,
    UnknownTag(String),
    ParserError(String),
}

/// The result type used throughout the parser.
pub type PResult<T> = Result<T, Error>;

/// An error with its message stripped: the contracts of the parsing functions
/// pin down which kind of error is returned on which input, while the message
/// strings carried by `Error` are informational only.
#[derive(Debug, Clone, Copy, PartialEq, Eq, Structural)]
pub enum ErrKind {
    EndOfInput,
    BadTag,
    Malformed,
}

/// The kind of an `Error`, used by the contracts.
pub open spec fn kind_of(e: Error) -> ErrKind {
    match e {
        Error::EOF => ErrKind::EndOfInput,
        Error::UnknownTag(_) => ErrKind::BadTag,
        Error::ParserError(_) => ErrKind::Malformed,
    }
}

impl Error {
    /// Builds the error that reports a tag outside the allowed set.
    pub fn unknown_tag() -> (r: Error)
        ensures
            kind_of(r) == ErrKind::BadTag,
    {
        Error::UnknownTag("tag should be in allowed tags".to_owned())
    }

    /// Builds the error that reports a tag of the wrong width.
    pub fn unknown_width() -> (r: Error)
        ensures
            kind_of(r) == ErrKind::BadTag,
    {
        Error::UnknownTag("tag should have the expected length".to_owned())
    }

    /// Builds the error that reports a byte span that is not valid UTF-8.
    pub fn invalid_text() -> (r: Error)
        ensures
            kind_of(r) == ErrKind::Malformed,
    {
        Error::ParserError("invalid utf-8".to_owned())
    }

    /// Builds the error that reports a line inside an open record that does
    /// not begin with a recognized tag.
    pub fn bad_line() -> (r: Error)
        ensures
            kind_of(r) == ErrKind::Malformed,
    {
        Error::ParserError("line should start with a tag".to_owned())
    }
}

} // verus!
