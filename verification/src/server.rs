//! What the endpoints decide: who may call, and how a result is answered.

use vstd::prelude::*;
use vstd::string::*;
use crate::error::{error_text, Error};
use crate::format::SerializationFormat;

verus! {

/// The answer of an endpoint.
pub enum AppReply<T> {
    /// The value, to be written as JSON text.
    Json(T),
    /// The value, to be written in the compact binary encoding.
    Bincode(T),
    /// An empty body.
    Empty,
    /// The text of an error.
    Error(String),
}

/// The key is one of the allowed keys.
pub open spec fn is_allowed(api_key: Seq<char>, api_keys: Seq<String>) -> bool {
    exists|i: int| 0 <= i < api_keys.len() && (#[trigger] api_keys[i])@ == api_key
}

/// Lets a request pass if and only if its API key is one of the allowed
/// keys; a request with another key is refused with that key.
pub fn authorize(api_key: String, api_keys: &Vec<String>) -> (r: Result<(), Error>)
    ensures
        is_allowed(api_key@, api_keys@) ==> r is Ok,
        !is_allowed(api_key@, api_keys@) ==> r == Err::<(), Error>(Error::InvalidApiKey(api_key)),
{
    let mut i: usize = 0;
    while i < api_keys.len()
        invariant
            i <= api_keys@.len(),
            forall|k: int| 0 <= k < i ==> (#[trigger] api_keys@[k])@ != api_key@,
        decreases api_keys@.len() - i,
    {
        if api_keys[i] == api_key {
            return Ok(());
        }
        i = i + 1;
    }
    Err(Error::InvalidApiKey(api_key))
}

/// Answers with a value in the encoding that the request accepts.
pub fn reply_in<T>(accept: SerializationFormat, value: T) -> (r: AppReply<T>)
    ensures
        r == match accept {
            SerializationFormat::Bincode => AppReply::Bincode(value),
            SerializationFormat::Json => AppReply::Json(value),
        },
{
    match accept {
        SerializationFormat::Bincode => AppReply::Bincode(value),
        SerializationFormat::Json => AppReply::Json(value),
    }
}

/// Answers a request that reads from the store: the request has to carry an
/// allowed key; then what the store gave is answered in the encoding that
/// the request accepts, and what the store refused stays an error.
pub fn respond<T>(
    api_key: String,
    api_keys: &Vec<String>,
    accept: SerializationFormat,
    outcome: Result<T, Error>,
) -> (r: Result<AppReply<T>, Error>)
    ensures
        !is_allowed(api_key@, api_keys@) ==> r == Err::<AppReply<T>, Error>(
            Error::InvalidApiKey(api_key),
        ),
        is_allowed(api_key@, api_keys@) ==> r == match outcome {
            Ok(value) => Ok::<AppReply<T>, Error>(
                match accept {
                    SerializationFormat::Bincode => AppReply::Bincode(value),
                    SerializationFormat::Json => AppReply::Json(value),
                },
            ),
            Err(e) => Err::<AppReply<T>, Error>(e),
        },
{
    match authorize(api_key, api_keys) {
        Ok(()) => {},
        Err(e) => {
            return Err(e);
        },
    }
    match outcome {
        Ok(value) => Ok(reply_in(accept, value)),
        Err(e) => Err(e),
    }
}

/// Answers a submission: the request has to carry an allowed key; then what
/// the store accepted is answered with an empty body, and what it refused
/// stays an error.
pub fn respond_empty(api_key: String, api_keys: &Vec<String>, outcome: Result<(), Error>) -> (r:
    Result<AppReply<()>, Error>)
    ensures
        !is_allowed(api_key@, api_keys@) ==> r == Err::<AppReply<()>, Error>(
            Error::InvalidApiKey(api_key),
        ),
        is_allowed(api_key@, api_keys@) ==> r == match outcome {
            Ok(()) => Ok::<AppReply<()>, Error>(AppReply::Empty),
            Err(e) => Err::<AppReply<()>, Error>(e),
        },
{
    match authorize(api_key, api_keys) {
        Ok(()) => {},
        Err(e) => {
            return Err(e);
        },
    }
    match outcome {
        Ok(()) => Ok(AppReply::Empty),
        Err(e) => Err(e),
    }
}

impl Error {
    /// Tells whether the error is the failure of an authentication: the API
    /// key was not an allowed one.
    pub fn is_authentication_failure(&self) -> (r: bool)
        ensures
            r == (self is InvalidApiKey),
    {
        match self {
            Error::InvalidApiKey(_) => true,
            _ => false,
        }
    }

    /// The answer that carries the text of the error.
    pub fn into_reply<T>(self) -> (r: AppReply<T>)
        ensures
            r matches AppReply::Error(text) && text@ == error_text(self),
    {
        AppReply::Error(self.message())
    }
}

/// Turns the outcome of an endpoint into an answer: an answer stays as it
/// is, and an error becomes the answer that carries its text.
pub fn error_to_reply<T>(maybe_err: Result<AppReply<T>, Error>) -> (r: Result<
    AppReply<T>,
    std::convert::Infallible,
>)
    ensures
        match maybe_err {
            Ok(reply) => r == Ok::<AppReply<T>, std::convert::Infallible>(reply),
            Err(e) => r matches Ok(AppReply::Error(text)) && text@ == error_text(e),
        },
{
    match maybe_err {
        Ok(r) => Ok(r),
        Err(e) => Ok(e.into_reply()),
    }
}

} // verus!
