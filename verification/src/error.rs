//! The errors of a conversion.

use vstd::prelude::*;

verus! {

/// Why a line of a corpus is malformed.
#[derive(Clone, Copy, Debug, PartialEq, Eq, Structural)]
pub enum ParseError {
    /// The line has fewer than 41 bytes: there is no room for a digest and a
    /// separator.
    ShortLine,
    /// The first 40 bytes are not all hexadecimal digits.
    BadDigest,
    /// What follows the separator is not a decimal number that fits in 32
    /// bits.
    BadCount,
}

/// An error in the classes that callers who work on files report.
#[derive(Clone, Copy, Debug, PartialEq, Eq, Structural)]
pub enum IoError {
    /// The input is not text: a line of it is not valid UTF-8.
    InvalidData,
    /// A line of the corpus is malformed.
    Other(ParseError),
}

/// The error of the class "other" that stands for a malformed line.
pub fn to_io_error(e: ParseError) -> (error: IoError)
    ensures
        error == IoError::Other(e),
{
    IoError::Other(e)
}

impl ParseError {
    /// What the error says, as text.
    pub open spec fn spec_message(self) -> Seq<char> {
        match self {
            ParseError::ShortLine => "line is shorter than 41 bytes"@,
            ParseError::BadDigest => "digest is not 40 hexadecimal digits"@,
            ParseError::BadCount => "count is not a decimal number of 32 bits"@,
        }
    }

    /// What the error says, as text.
    pub fn message(&self) -> (text: String)
        ensures
            text@ == self.spec_message(),
    {
        match self {
            ParseError::ShortLine => "line is shorter than 41 bytes".to_owned(),
            ParseError::BadDigest => "digest is not 40 hexadecimal digits".to_owned(),
            ParseError::BadCount => "count is not a decimal number of 32 bits".to_owned(),
        }
    }
}

impl IoError {
    /// What the error says, as text.
    pub open spec fn spec_message(self) -> Seq<char> {
        match self {
            IoError::InvalidData => "stream did not contain valid UTF-8"@,
            IoError::Other(e) => e.spec_message(),
        }
    }

    /// What the error says, as text.
    pub fn message(&self) -> (text: String)
        ensures
            text@ == self.spec_message(),
    {
        match self {
            IoError::InvalidData => "stream did not contain valid UTF-8".to_owned(),
            IoError::Other(e) => e.message(),
        }
    }
}

} // verus!
