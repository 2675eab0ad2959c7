//! The ways in which a parse ends early.

use vstd::prelude::*;

verus! {

/// Why a parse stopped. Every error is final: nothing is skipped and nothing
/// is tried again.
#[derive(Clone, Copy, Debug, PartialEq, Eq, Structural)]
pub enum Error {
    /// The compressed stream is corrupt, or it ended inside a frame.
    Decompression,
    /// The header, the start of a record or the end of the document is not
    /// where it has to be.
    MalformedEnvelope,
    /// A record is not an array of exactly twenty values.
    FieldShape,
    /// A field that is read is not a quoted string.
    FieldDecode,
    /// A number is missing, is not written in decimal, or is out of range.
    NumericParse,
    /// A URL suffix asks for a prefix that the primary URL does not have.
    UrlSuffix,
    /// The consumer of the items is gone.
    Handoff,
}

impl Error {
    /// The words that describe the error.
    pub open spec fn description(self) -> Seq<char> {
        match self {
            Error::Decompression => "corrupt or truncated compressed stream"@,
            Error::MalformedEnvelope => "malformed envelope"@,
            Error::FieldShape => "record is not an array of twenty values"@,
            Error::FieldDecode => "field is not a quoted string"@,
            Error::NumericParse => "missing or invalid number"@,
            Error::UrlSuffix => "malformed URL suffix"@,
            Error::Handoff => "item consumer is gone"@,
        }
    }

    /// A short description of the error, for messages.
    pub fn message(&self) -> (text: &'static str)
        ensures
            text@ == self.description(),
    {
        match self {
            Error::Decompression => "corrupt or truncated compressed stream",
            Error::MalformedEnvelope => "malformed envelope",
            Error::FieldShape => "record is not an array of twenty values",
            Error::FieldDecode => "field is not a quoted string",
            Error::NumericParse => "missing or invalid number",
            Error::UrlSuffix => "malformed URL suffix",
            Error::Handoff => "item consumer is gone",
        }
    }
}

} // verus!
