//! The errors that decoding a form can end in.

use vstd::prelude::*;

verus! {

/// An error from decoding a `multipart/form-data` body.
#[derive(Debug)]
pub enum Error {
    /// The request had no content-type header.
    NoRequestContentType,
    /// The request's content type was not `multipart/*`.
    NotMultipart,
    /// The request's content type was not `multipart/form-data`.
    NotFormData,
    /// A content type failed to specify a boundary.
    BoundaryNotSpecified,
    /// A section's header block was incomplete.
    PartialHeaders,
    /// A section had no `Content-Disposition` header.
    MissingDisposition,
    /// A section's disposition does not fit where it stands.
    InvalidDisposition,
    /// A section's `Content-Disposition` header gave no name.
    NoName,
    /// The body ended before its closing boundary.
    Eof,
    /// A header value was empty or malformed.
    Header,
    /// A section's header block was malformed; holds the header parser's message.
    Httparse(String),
    /// Bytes that had to be text were not valid UTF-8.
    Utf8,
    /// A filename's character set is not one that is decoded; holds its name.
    UnsupportedCharset(String),
    /// A filename's bytes are not valid in its character set; holds the decoder's message.
    Decoding(String),
}

/// Why decoding fails: one of the library's errors, or one that holds a message, given here by
/// its text.
pub enum Failure {
    Fail(Error),
    /// Malformed section headers, with the header parser's message.
    Malformed(Seq<char>),
    /// A filename's character set that is not decoded, by name.
    Unsupported(Seq<char>),
    /// A filename that its character set cannot decode, with the decoder's message.
    Undecodable(Seq<char>),
}

/// The error `e` is the failure `f`.
pub open spec fn fails_as(e: Error, f: Failure) -> bool {
    match f {
        Failure::Fail(g) => e == g,
        Failure::Malformed(m) => match e {
            Error::Httparse(x) => x@ == m,
            _ => false,
        },
        Failure::Unsupported(m) => match e {
            Error::UnsupportedCharset(x) => x@ == m,
            _ => false,
        },
        Failure::Undecodable(m) => match e {
            Error::Decoding(x) => x@ == m,
            _ => false,
        },
    }
}

impl Error {
    /// A sentence that describes the kind of error, whatever it holds.
    pub fn description(&self) -> (r: &'static str)
        ensures
            match self {
                Error::NoRequestContentType => r@ == "The hyper request did not have a content-type header"@,
                Error::NotMultipart => r@ == "The hyper request content-type top-level Mime was not multipart"@,
                Error::NotFormData => r@ == "The hyper request content-type sub-level Mime was not form-data"@,
                Error::BoundaryNotSpecified => r@ == "The content-type header failed to specify a boundary token"@,
                Error::PartialHeaders => r@ == "A multipart section contained only partial headers"@,
                Error::MissingDisposition => r@ == "A multipart section did not have the required content-disposition header"@,
                Error::InvalidDisposition => r@ == "A multipart section had a content-disposition that does not fit its place"@,
                Error::NoName => r@ == "A multipart section content-disposition header failed to specify a name"@,
                Error::Eof => r@ == "The request body ended prior to reaching the expected terminating boundary"@,
                Error::Header => r@ == "A header value was empty or malformed"@,
                Error::Httparse(_) => r@ == "A parse error occurred while parsing the headers of a multipart section"@,
                Error::Utf8 => r@ == "UTF-8 error"@,
                Error::UnsupportedCharset(_) => r@ == "A filename's character set is not supported"@,
                Error::Decoding(_) => r@ == "A filename's bytes are not valid in its character set"@,
            },
    {
        match self {
            Error::NoRequestContentType => "The hyper request did not have a content-type header",
            Error::NotMultipart => "The hyper request content-type top-level Mime was not multipart",
            Error::NotFormData => "The hyper request content-type sub-level Mime was not form-data",
            Error::BoundaryNotSpecified => "The content-type header failed to specify a boundary token",
            Error::PartialHeaders => "A multipart section contained only partial headers",
            Error::MissingDisposition => "A multipart section did not have the required content-disposition header",
            Error::InvalidDisposition => "A multipart section had a content-disposition that does not fit its place",
            Error::NoName => "A multipart section content-disposition header failed to specify a name",
            Error::Eof => "The request body ended prior to reaching the expected terminating boundary",
            Error::Header => "A header value was empty or malformed",
            Error::Httparse(_) => "A parse error occurred while parsing the headers of a multipart section",
            Error::Utf8 => "UTF-8 error",
            Error::UnsupportedCharset(_) => "A filename's character set is not supported",
            Error::Decoding(_) => "A filename's bytes are not valid in its character set",
        }
    }
}

} // verus!
