//! The errors of decoding, encoding and the JSON mapping.

use vstd::prelude::*;

verus! {

#[derive(Debug)]
pub enum Error {
    /// Ran past the end of the input buffer.
    Eof,
    /// A structurally invalid stream (bad header, bad tag, bad lengths, ...).
    Invalid(String),
    /// A `TY_REFERENCE` pointed at a slot that doesn't exist.
    BadReference(i64),
    /// The Adler-32 checksum stored in the stream didn't match the computed one.
    ChecksumMismatch,
    /// A wire feature that is not implemented
    /// (TY_DBROW, TY_WSTREAM, TY_PICKLE, TY_PICKLER, TY_COMPLEX).
    Unsupported(&'static str),
    /// Recursion depth guard (`RECURSION_LIMIT` nested objects).
    RecursionLimit,
    /// Errors of the JSON mapping (bad prefix, malformed compound key, ...).
    Json(String),
}

/// What an error says, with its texts as character sequences.
pub enum ErrorView {
    Eof,
    Invalid(Seq<char>),
    BadReference(i64),
    ChecksumMismatch,
    Unsupported(Seq<char>),
    RecursionLimit,
    Json(Seq<char>),
}

impl View for Error {
    type V = ErrorView;

    open spec fn view(&self) -> ErrorView {
        match self {
            Error::Eof => ErrorView::Eof,
            Error::Invalid(s) => ErrorView::Invalid(s@),
            Error::BadReference(id) => ErrorView::BadReference(*id),
            Error::ChecksumMismatch => ErrorView::ChecksumMismatch,
            Error::Unsupported(s) => ErrorView::Unsupported(s@),
            Error::RecursionLimit => ErrorView::RecursionLimit,
            Error::Json(s) => ErrorView::Json(s@),
        }
    }
}

impl Error {
    /// The text that describes the error.
    pub fn message(&self) -> (r: String)
        ensures
            r@ == spec_message(self@),
    {
        match self {
            Error::Eof => crate::text::string_of("unexpected end of stream"),
            Error::Invalid(s) => crate::text::concat("invalid marshal stream: ", s.as_str()),
            Error::BadReference(id) => {
                let n = crate::text::i64_to_decimal(*id);
                crate::text::concat("invalid TY_REFERENCE id ", n.as_str())
            },
            Error::ChecksumMismatch => crate::text::string_of("adler32 checksum mismatch"),
            Error::Unsupported(s) => crate::text::concat("unsupported marshal feature: ", s),
            Error::RecursionLimit => crate::text::string_of("maximum recursion depth reached"),
            Error::Json(s) => crate::text::concat("invalid JSON encoding: ", s.as_str()),
        }
    }
}

/// The text of an error, as `message` gives it.
pub open spec fn spec_message(e: ErrorView) -> Seq<char> {
    match e {
        ErrorView::Eof => "unexpected end of stream"@,
        ErrorView::Invalid(s) => "invalid marshal stream: "@ + s,
        ErrorView::BadReference(id) => "invalid TY_REFERENCE id "@ + crate::text::decimal(id as int),
        ErrorView::ChecksumMismatch => "adler32 checksum mismatch"@,
        ErrorView::Unsupported(s) => "unsupported marshal feature: "@ + s,
        ErrorView::RecursionLimit => "maximum recursion depth reached"@,
        ErrorView::Json(s) => "invalid JSON encoding: "@ + s,
    }
}

pub type Result<T> = core::result::Result<T, Error>;

} // verus!
