//! The encodings of the wire, and the MIME types that name them.

use vstd::prelude::*;
use vstd::string::*;
use crate::error::Error;

verus! {

/// The name of the header that carries the API key.
pub const API_KEY_HEADER: &'static str = "x-api-key";

/// The MIME type of the JSON encoding.
pub const APPLICATION_JSON: &'static str = "application/json";

/// The MIME type of the compact binary encoding.
pub const OCTET_STREAM: &'static str = "application/octet-stream";

/// An encoding of the wire.
#[derive(Clone, Copy, Debug, PartialEq, Eq, Structural)]
pub enum SerializationFormat {
    /// The compact binary encoding, which is also that of the stored records.
    Bincode,
    /// JSON text.
    Json,
}

/// The encoding that a MIME type names.
pub open spec fn format_of(mime: Seq<char>) -> Option<SerializationFormat> {
    if mime == APPLICATION_JSON@ {
        Some(SerializationFormat::Json)
    } else if mime == OCTET_STREAM@ {
        Some(SerializationFormat::Bincode)
    } else {
        None
    }
}

/// Tells whether two texts are the same.
pub fn same_text(a: &str, b: &str) -> (r: bool)
    ensures
        r == (a@ == b@),
{
    let x = a.as_bytes();
    let y = b.as_bytes();
    proof {
        vstd::utf8::encode_utf8_decode_utf8(a@);
        vstd::utf8::encode_utf8_decode_utf8(b@);
    }
    if x.len() != y.len() {
        return false;
    }
    let mut i: usize = 0;
    while i < x.len()
        invariant
            i <= x@.len(),
            x@.len() == y@.len(),
            x@ == a.spec_bytes(),
            y@ == b.spec_bytes(),
            forall|k: int| 0 <= k < i ==> x@[k] == y@[k],
        decreases x@.len() - i,
    {
        if x[i] != y[i] {
            return false;
        }
        i = i + 1;
    }
    assert(x@ =~= y@);
    true
}

impl SerializationFormat {
    /// The MIME type of the encoding.
    pub open spec fn mime(&self) -> Seq<char> {
        match self {
            SerializationFormat::Bincode => OCTET_STREAM@,
            SerializationFormat::Json => APPLICATION_JSON@,
        }
    }

    /// Reads an encoding from its MIME type. A MIME type that names no
    /// encoding is refused with its text.
    pub fn parse(s: &str) -> (r: Result<SerializationFormat, Error>)
        ensures
            match format_of(s@) {
                Some(f) => r == Ok::<SerializationFormat, Error>(f),
                None => r matches Err(Error::UnsupportedSerializationMimeType(t)) && t@ == s@,
            },
    {
        if same_text(s, APPLICATION_JSON) {
            Ok(SerializationFormat::Json)
        } else if same_text(s, OCTET_STREAM) {
            Ok(SerializationFormat::Bincode)
        } else {
            Err(Error::UnsupportedSerializationMimeType(s.to_owned()))
        }
    }

    /// Reads the encoding of a submission from its content type. A content
    /// type that names no encoding is refused with its text.
    pub fn for_submission(content_type: &str) -> (r: Result<SerializationFormat, Error>)
        ensures
            match format_of(content_type@) {
                Some(f) => r == Ok::<SerializationFormat, Error>(f),
                None => r matches Err(Error::InvalidSubmissionContentType(t)) && t@
                    == content_type@,
            },
    {
        match SerializationFormat::parse(content_type) {
            Ok(f) => Ok(f),
            Err(_) => Err(Error::InvalidSubmissionContentType(content_type.to_owned())),
        }
    }

    /// The MIME type of the encoding, as a header carries it.
    pub fn header_value(&self) -> (r: &'static str)
        ensures
            r@ == self.mime(),
            format_of(r@) == Some(*self),
    {
        proof {
            lemma_mimes_differ();
        }
        match self {
            SerializationFormat::Bincode => OCTET_STREAM,
            SerializationFormat::Json => APPLICATION_JSON,
        }
    }
}

/// The two MIME types are two.
pub proof fn lemma_mimes_differ()
    ensures
        APPLICATION_JSON@ != OCTET_STREAM@,
{
    reveal_strlit("application/json");
    reveal_strlit("application/octet-stream");
    assert(APPLICATION_JSON@.len() == 16);
    assert(OCTET_STREAM@.len() == 24);
}

/// An encoding is read from its MIME type as `SerializationFormat::parse`
/// reads it.
impl std::str::FromStr for SerializationFormat {
    type Err = Error;

    fn from_str(s: &str) -> (r: Result<SerializationFormat, Error>)
        ensures
            match format_of(s@) {
                Some(f) => r == Ok::<SerializationFormat, Error>(f),
                None => r matches Err(Error::UnsupportedSerializationMimeType(t)) && t@ == s@,
            },
    {
        SerializationFormat::parse(s)
    }
}

} // verus!
