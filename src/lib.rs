//! Incremental decoding of `multipart/form-data` request bodies into named text fields and
//! named uploaded files.
//!
//! - `buf`: a chunked byte source and the scanner that streams everything before the first
//!   occurrence of a delimiter to a sink, whatever the chunking.
//! - `headers`: the `Content-Disposition` header of a section.
//! - `multipart`: the state machine that walks boundary-delimited sections, classifies each as a
//!   text field, a file or a nested `multipart/mixed` envelope, and captures its body.
//! - `stream`: the same state machine driven from outside, for a body that arrives from a
//!   stream: `FormParser` says what to scan for next and where the bytes go, `buf::Scanner` is
//!   fed the stream chunk by chunk, and file bodies go straight to wherever files are kept.
//!   `read_formdata_by_steps` drives both over a `ChunkReader` and is proved to decode exactly
//!   as `read_formdata` does.
//! - `form_data`: what a walk yields.
//!
//! A `ChunkReader` holds a body in memory and hands it out chunk by chunk; the parse result is a
//! function of the bytes alone, not of the chunk size.

pub mod buf;
pub mod error;
pub mod form_data;
pub mod headers;
pub mod multipart;
pub mod stream;
mod outside;

pub use buf::{BufReadExt, ChunkReader};
pub use error::Error;
pub use form_data::{FormData, MediaType, UploadedFile};
pub use headers::{ContentDisposition, ContentDispositionFormData};
pub use multipart::read_formdata;
