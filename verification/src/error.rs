//! The error type of the library.

use vstd::prelude::*;
use vstd::string::*;
use crate::text::{base32, base32_text, decimal, decimal_text, lossy_text, utf8_lossy};

verus! {

/// What can go wrong. A failure of a collaborator (the store, the codec, the
/// transport) is carried as its text.
#[derive(Debug)]
pub enum Error {
    /// The compact binary codec failed.
    Bincode(String),
    /// The JSON codec failed.
    SerdeJson(String),
    /// The completion of a flush could not be signalled.
    FlushResponse,
    /// A header value was not acceptable.
    Header(String),
    /// A URL could not be parsed.
    Url(String),
    /// The API key is missing from the allowlist.
    InvalidApiKey(String),
    /// The content type of a submission is not a known encoding.
    InvalidSubmissionContentType(String),
    /// A key does not have the 16 bytes of an identifier.
    InvalidLengthBytesForUlid(usize),
    /// No entry is stored under the identifier.
    MissingEntity(u128),
    /// The bytes do not name a partition.
    ParseTreeNameFromBytes(Vec<u8>),
    /// The HTTP client failed.
    Reqwest(String),
    /// The store failed.
    Sled(String),
    /// No larger identifier could be made; the text says why.
    Ulid(String),
    /// A UUID could not be read.
    Uuid(String),
    /// The MIME type names no known encoding.
    UnsupportedSerializationMimeType(String),
    /// The HTTP server failed.
    Warp(String),
    /// The logger could not be installed.
    Log(String),
    /// A filter is not a regular expression.
    Regex(String),
    /// A partition summary could not be read.
    ParseLogTreeInfo(String),
    /// The logging channel hung up.
    LogSubscriberClosed,
    /// Anything else.
    Custom(String),
}

/// What an error says of itself.
pub open spec fn error_text(e: Error) -> Seq<char> {
    match e {
        Error::Bincode(t) => "Bincode: "@ + t@,
        Error::SerdeJson(t) => "Serde Json: "@ + t@,
        Error::FlushResponse => "Error sending flush response"@,
        Error::Header(t) => "Header: "@ + t@,
        Error::Url(t) => "Parse url: "@ + t@,
        Error::InvalidApiKey(k) => "API key `"@ + k@ + "` is not valid"@,
        Error::InvalidSubmissionContentType(t) => "Submission of content type `"@ + t@
            + "` is not valid"@,
        Error::InvalidLengthBytesForUlid(n) => "Bytes of length "@ + decimal_text(n as nat)
            + " cannot be converted to a Ulid (16 required"@,
        Error::MissingEntity(id) => "Missing entity with id: "@ + base32_text(id),
        Error::ParseTreeNameFromBytes(b) => "Error parsing tree name from bytes: "@ + utf8_lossy(
            b@,
        ),
        Error::Reqwest(t) => "Reqwest: "@ + t@,
        Error::Sled(t) => "Sled: "@ + t@,
        Error::Ulid(t) => "Ulid: "@ + t@,
        Error::Uuid(t) => "Uuid: "@ + t@,
        Error::UnsupportedSerializationMimeType(t) => "Unsupported serialization mime type of: "@
            + t@,
        Error::Warp(t) => "Warp: "@ + t@,
        Error::Log(t) => "Setting logger: "@ + t@,
        Error::Regex(t) => "Parsing regex: "@ + t@,
        Error::ParseLogTreeInfo(t) => "Parse log tree info: "@ + t@,
        Error::LogSubscriberClosed => "Log subscriber was closed"@,
        Error::Custom(t) => "Custom: "@ + t@,
    }
}

impl Error {
    /// What the error says of itself.
    pub fn message(&self) -> (r: String)
        ensures
            r@ == error_text(*self),
    {
        match self {
            Error::Bincode(t) => String::from_str("Bincode: ").concat(t.as_str()),
            Error::SerdeJson(t) => String::from_str("Serde Json: ").concat(t.as_str()),
            Error::FlushResponse => String::from_str("Error sending flush response"),
            Error::Header(t) => String::from_str("Header: ").concat(t.as_str()),
            Error::Url(t) => String::from_str("Parse url: ").concat(t.as_str()),
            Error::InvalidApiKey(k) => String::from_str("API key `").concat(k.as_str()).concat(
                "` is not valid",
            ),
            Error::InvalidSubmissionContentType(t) => String::from_str(
                "Submission of content type `",
            ).concat(t.as_str()).concat("` is not valid"),
            Error::InvalidLengthBytesForUlid(n) => {
                let digits = decimal(*n);
                String::from_str("Bytes of length ").concat(digits.as_str()).concat(
                    " cannot be converted to a Ulid (16 required",
                )
            },
            Error::MissingEntity(id) => {
                let text = base32(*id);
                String::from_str("Missing entity with id: ").concat(text.as_str())
            },
            Error::ParseTreeNameFromBytes(b) => {
                let text = lossy_text(b.as_slice());
                String::from_str("Error parsing tree name from bytes: ").concat(text.as_str())
            },
            Error::Reqwest(t) => String::from_str("Reqwest: ").concat(t.as_str()),
            Error::Sled(t) => String::from_str("Sled: ").concat(t.as_str()),
            Error::Ulid(t) => String::from_str("Ulid: ").concat(t.as_str()),
            Error::Uuid(t) => String::from_str("Uuid: ").concat(t.as_str()),
            Error::UnsupportedSerializationMimeType(t) => String::from_str(
                "Unsupported serialization mime type of: ",
            ).concat(t.as_str()),
            Error::Warp(t) => String::from_str("Warp: ").concat(t.as_str()),
            Error::Log(t) => String::from_str("Setting logger: ").concat(t.as_str()),
            Error::Regex(t) => String::from_str("Parsing regex: ").concat(t.as_str()),
            Error::ParseLogTreeInfo(t) => String::from_str("Parse log tree info: ").concat(
                t.as_str(),
            ),
            Error::LogSubscriberClosed => String::from_str("Log subscriber was closed"),
            Error::Custom(t) => String::from_str("Custom: ").concat(t.as_str()),
        }
    }
}

} // verus!
