//! A minimal network client library: a DNS stub-resolver codec that turns a
//! hostname into a query message and decodes the answer, and an HTTP/1.1
//! request serializer and response parser. Socket handling lives outside the
//! library; everything here works on plain values and is verified.

use vstd::prelude::*;
use vstd::string::StringExecFns;

pub mod dns;
pub mod http;
pub mod laws;
pub mod response;
pub mod text;
pub mod url;

verus! {

/// Errors surfaced by URL parsing and by the fetch driver around the library.
#[derive(Debug)]
pub enum Error {
    ParseUrlError,
    StreamconnectionError(String),
    ResponseParseError,
}

impl Error {
    /// Diagnostic text for this error, in place of a `Display` impl.
    pub fn message(&self) -> (r: String)
        ensures
            match self {
                Error::ParseUrlError => r@ == "URL parsing error"@,
                Error::StreamconnectionError(s) => r@ == "Error establishing connection: "@ + s@,
                Error::ResponseParseError => r@ == "Response parsing error"@,
            },
    {
        match self {
            Error::ParseUrlError => String::from_str("URL parsing error"),
            Error::StreamconnectionError(s) => {
                let mut m = String::from_str("Error establishing connection: ");
                m.append(s.as_str());
                m
            },
            Error::ResponseParseError => String::from_str("Response parsing error"),
        }
    }
}

} // verus!
