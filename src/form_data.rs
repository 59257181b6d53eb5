//! What decoding a form yields: its text fields and its uploaded files.

use vstd::prelude::*;

verus! {

/// A media type: top level, sub level and parameters, such as `text/plain; charset=utf-8`.
#[derive(Clone, Debug, PartialEq)]
pub struct MediaType {
    pub top: String,
    pub sub: String,
    pub params: Vec<(String, String)>,
}

impl MediaType {
    /// `text/plain; charset=utf-8`, the type of a file whose section gives none.
    pub fn text_plain() -> (r: MediaType)
        ensures
            r.top@ == "text"@,
            r.sub@ == "plain"@,
            r.params@.len() == 1,
            r.params@[0].0@ == "charset"@,
            r.params@[0].1@ == "utf-8"@,
    {
        let mut params: Vec<(String, String)> = Vec::new();
        params.push(("charset".to_owned(), "utf-8".to_owned()));
        MediaType { top: "text".to_owned(), sub: "plain".to_owned(), params }
    }
}

/// A file received in a form: the name it was sent under, its type, its size and its bytes.
#[derive(Clone, Debug, PartialEq)]
pub struct UploadedFile {
    /// The filename given in the section's disposition, unfiltered.
    pub filename: Option<String>,
    /// The section's content type, or `text/plain; charset=utf-8`.
    pub content_type: MediaType,
    /// The number of bytes in the file.
    pub size: usize,
    /// The file's bytes.
    pub contents: Vec<u8>,
}

impl UploadedFile {
    /// An empty file of the given type, without a filename.
    pub fn new(content_type: MediaType) -> (r: UploadedFile)
        ensures
            r.filename is None,
            r.content_type == content_type,
            r.size == 0,
            r.contents@.len() == 0,
    {
        UploadedFile { filename: None, content_type, size: 0, contents: Vec::new() }
    }
}

/// The text fields and files of a form, each in the order met, names repeated as sent.
#[derive(Clone, Debug, PartialEq)]
pub struct FormData {
    pub fields: Vec<(String, String)>,
    pub files: Vec<(String, UploadedFile)>,
}

impl FormData {
    /// A form with no fields and no files.
    pub fn new() -> (r: FormData)
        ensures
            r.fields@.len() == 0,
            r.files@.len() == 0,
    {
        FormData { fields: Vec::new(), files: Vec::new() }
    }
}

} // verus!
