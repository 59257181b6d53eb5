//! The multipart state machine: it walks the boundary-delimited sections of a body, reads each
//! section's headers, decides whether it is a text field, a file or a nested `multipart/mixed`
//! envelope, and captures its body.

use crate::buf::{scan_found, scan_len, scan_sink, ChunkReader};
use crate::error::{fails_as, Error, Failure};
use crate::form_data::{FormData, MediaType, UploadedFile};
use crate::headers::{bytes_opt, disposition_of, eq_lower, lower, string_opt, ContentDisposition};
use crate::outside::{
    header_block, header_views, media_type, param_views, parse_header_block, parse_media_type,
    string_from_utf8,
};
use vstd::prelude::*;
use vstd::utf8::{decode_utf8, encode_utf8, is_ascii_chars, valid_utf8};

verus! {

/// The lower-case header name `content-disposition`.
pub open spec fn disposition_header() -> Seq<u8> {
    seq![99u8, 111, 110, 116, 101, 110, 116, 45, 100, 105, 115, 112, 111, 115, 105, 116, 105, 111, 110]
}

/// The lower-case header name `content-type`.
pub open spec fn type_header() -> Seq<u8> {
    seq![99u8, 111, 110, 116, 101, 110, 116, 45, 116, 121, 112, 101]
}

/// The raw value of the first header whose name, without regard to ASCII case, is `name`.
pub open spec fn first_header(hs: Seq<(Seq<char>, Seq<u8>)>, name: Seq<u8>) -> Option<Seq<u8>>
    decreases hs.len(),
{
    if hs.len() == 0 {
        None
    } else if lower(encode_utf8(hs[0].0)) == name {
        Some(hs[0].1)
    } else {
        first_header(hs.drop_first(), name)
    }
}

/// The value of the first parameter named exactly `name`.
pub open spec fn first_param(ps: Seq<(Seq<char>, Seq<char>)>, name: Seq<char>) -> Option<Seq<char>>
    decreases ps.len(),
{
    if ps.len() == 0 {
        None
    } else if ps[0].0 == name {
        Some(ps[0].1)
    } else {
        first_param(ps.drop_first(), name)
    }
}

fn find_header(headers: &Vec<(String, Vec<u8>)>, name: &[u8]) -> (r: Option<Vec<u8>>)
    ensures
        bytes_opt(r) == first_header(header_views(headers@), name@),
{
    let ghost hs = header_views(headers@);
    let mut i: usize = 0;
    assert(hs.subrange(0, hs.len() as int) =~= hs);
    while i < headers.len()
        invariant
            i <= headers@.len(),
            hs == header_views(headers@),
            first_header(hs, name@) == first_header(hs.subrange(i as int, hs.len() as int), name@),
        decreases headers@.len() - i,
    {
        let ghost tail = hs.subrange(i as int, hs.len() as int);
        assert(tail.drop_first() =~= hs.subrange(i + 1, hs.len() as int));
        let key = headers[i].0.as_str().as_bytes();
        if eq_lower(key, 0, key.len(), name) {
            assert(key@.subrange(0, key@.len() as int) =~= key@);
            return Some(headers[i].1.clone());
        }
        assert(key@.subrange(0, key@.len() as int) =~= key@);
        i = i + 1;
    }
    None
}

fn find_param(params: &Vec<(String, String)>, name: &str) -> (r: Option<String>)
    ensures
        string_opt(r) == first_param(param_views(params@), name@),
{
    let ghost ps = param_views(params@);
    let wanted = name.to_owned();
    let mut i: usize = 0;
    assert(ps.subrange(0, ps.len() as int) =~= ps);
    while i < params.len()
        invariant
            i <= params@.len(),
            ps == param_views(params@),
            wanted@ == name@,
            first_param(ps, name@) == first_param(ps.subrange(i as int, ps.len() as int), name@),
        decreases params@.len() - i,
    {
        let ghost tail = ps.subrange(i as int, ps.len() as int);
        assert(tail.drop_first() =~= ps.subrange(i + 1, ps.len() as int));
        if params[i].0.eq(&wanted) {
            return Some(params[i].1.clone());
        }
        i = i + 1;
    }
    None
}


/// The view of a media type: top level, sub level, parameters.
pub open spec fn media_view(m: MediaType) -> (Seq<char>, Seq<char>, Seq<(Seq<char>, Seq<char>)>) {
    (m.top@, m.sub@, param_views(m.params@))
}

/// The view of `text/plain; charset=utf-8`.
pub open spec fn text_plain_view() -> (Seq<char>, Seq<char>, Seq<(Seq<char>, Seq<char>)>) {
    ("text"@, "plain"@, seq![("charset"@, "utf-8"@)])
}

/// The boundary that a `multipart/form-data` request's content type sets, with the leading
/// `--` that precedes it in the body; or the error for a missing or unfit content type. A
/// content type that is not ASCII text is no media type.
pub open spec fn request_boundary(content_type: Option<Seq<char>>) -> Result<Seq<u8>, Error> {
    match content_type {
        None => Err(Error::NoRequestContentType),
        Some(ct) => if !is_ascii_chars(ct) {
            Err(Error::NoRequestContentType)
        } else {
            match media_type(ct) {
                None => Err(Error::NoRequestContentType),
                Some(m) => if m.0 != "multipart"@ {
                    Err(Error::NotMultipart)
                } else if m.1 != "form-data"@ {
                    Err(Error::NotFormData)
                } else {
                    match first_param(m.2, "boundary"@) {
                        None => Err(Error::BoundaryNotSpecified),
                        Some(b) => Ok(seq![45u8, 45] + encode_utf8(b)),
                    }
                },
            }
        },
    }
}

fn word_eq(s: &String, w: &str) -> (r: bool)
    ensures
        r == (s@ == w@),
{
    let t = w.to_owned();
    s.eq(&t)
}

/// `--` followed by the UTF-8 bytes of `b`.
fn dashed(b: &String) -> (r: Vec<u8>)
    ensures
        r@ == seq![45u8, 45] + encode_utf8(b@),
{
    let bytes = b.as_str().as_bytes();
    let mut r: Vec<u8> = Vec::new();
    r.push(45);
    r.push(45);
    let mut i: usize = 0;
    while i < bytes.len()
        invariant
            i <= bytes@.len(),
            bytes@ == encode_utf8(b@),
            r@ == seq![45u8, 45] + bytes@.subrange(0, i as int),
        decreases bytes@.len() - i,
    {
        r.push(bytes[i]);
        i = i + 1;
        assert(r@ =~= seq![45u8, 45] + bytes@.subrange(0, i as int));
    }
    assert(bytes@.subrange(0, bytes@.len() as int) =~= bytes@);
    r
}

/// Checks that a request's content type is `multipart/form-data` with a boundary, before any
/// of the body is read, and returns that boundary preceded by `--`.
pub fn form_boundary(content_type: Option<&str>) -> (r: Result<Vec<u8>, Error>)
    ensures
        match r {
            Ok(b) => request_boundary(
                match content_type {
                    Some(c) => Some(c@),
                    None => None,
                },
            ) == Ok::<Seq<u8>, Error>(b@),
            Err(e) => request_boundary(
                match content_type {
                    Some(c) => Some(c@),
                    None => None,
                },
            ) == Err::<Seq<u8>, Error>(e),
        },
{
    let ct = match content_type {
        None => return Err(Error::NoRequestContentType),
        Some(c) => c,
    };
    if !ct.is_ascii() {
        return Err(Error::NoRequestContentType);
    }
    let (top, sub, params) = match parse_media_type(ct) {
        None => return Err(Error::NoRequestContentType),
        Some(m) => m,
    };
    if !word_eq(&top, "multipart") {
        return Err(Error::NotMultipart);
    }
    if !word_eq(&sub, "form-data") {
        return Err(Error::NotFormData);
    }
    match find_param(&params, "boundary") {
        None => Err(Error::BoundaryNotSpecified),
        Some(b) => Ok(dashed(&b)),
    }
}


/// What a section holds.
#[derive(Clone, Copy, Debug, PartialEq, Eq)]
pub enum SectionKind {
    /// A text field.
    Value,
    /// A file.
    File,
    /// A nested `multipart/mixed` envelope of files.
    Mixed,
}

/// How a section is classified: in the outer `form-data` walk a `form-data` section is a nested
/// envelope when its content type is `multipart/mixed`, a file when it has a content type or a
/// filename, else a text field; inside a `multipart/mixed` envelope a `file` or `attachment`
/// section is a file. Anything else fits nowhere.
pub open spec fn kind_of(
    form_mode: bool,
    disposition: Seq<char>,
    content_type: Option<(Seq<char>, Seq<char>, Seq<(Seq<char>, Seq<char>)>)>,
    has_filename: bool,
) -> Option<SectionKind> {
    if form_mode {
        if disposition == "form-data"@ {
            match content_type {
                Some(m) => if m.0 == "multipart"@ && m.1 == "mixed"@ {
                    Some(SectionKind::Mixed)
                } else {
                    Some(SectionKind::File)
                },
                None => if has_filename {
                    Some(SectionKind::File)
                } else {
                    Some(SectionKind::Value)
                },
            }
        } else {
            None
        }
    } else if disposition == "file"@ || disposition == "attachment"@ {
        Some(SectionKind::File)
    } else {
        None
    }
}

/// The view of an optional media type.
pub open spec fn opt_media(m: Option<MediaType>) -> Option<(Seq<char>, Seq<char>, Seq<(Seq<char>, Seq<char>)>)> {
    match m {
        Some(t) => Some(media_view(t)),
        None => None,
    }
}

/// Classifies a section by the walk it stands in, its disposition type, its content type and
/// whether it names a file.
pub fn section_kind(form_mode: bool, disposition: &String, content_type: &Option<MediaType>, has_filename: bool)
    -> (r: Option<SectionKind>)
    ensures
        r == kind_of(form_mode, disposition@, opt_media(*content_type), has_filename),
{
    if form_mode {
        if word_eq(disposition, "form-data") {
            match content_type {
                Some(m) => if word_eq(&m.top, "multipart") && word_eq(&m.sub, "mixed") {
                    Some(SectionKind::Mixed)
                } else {
                    Some(SectionKind::File)
                },
                None => if has_filename {
                    Some(SectionKind::File)
                } else {
                    Some(SectionKind::Value)
                },
            }
        } else {
            None
        }
    } else if word_eq(disposition, "file") || word_eq(disposition, "attachment") {
        Some(SectionKind::File)
    } else {
        None
    }
}

/// The content type that a section's headers give, where it is ASCII text and a media type.
pub open spec fn section_media(hv: Seq<(Seq<char>, Seq<u8>)>) -> Option<(Seq<char>, Seq<char>, Seq<(Seq<char>, Seq<char>)>)> {
    match first_header(hv, type_header()) {
        Some(raw) => if valid_utf8(raw) && is_ascii_chars(decode_utf8(raw)) {
            media_type(decode_utf8(raw))
        } else {
            None
        },
        None => None,
    }
}

fn section_content_type(headers: &Vec<(String, Vec<u8>)>) -> (r: Option<MediaType>)
    ensures
        opt_media(r) == section_media(header_views(headers@)),
{
    let name: Vec<u8> = vec![99u8, 111, 110, 116, 101, 110, 116, 45, 116, 121, 112, 101];
    assert(name@ =~= type_header());
    let raw = match find_header(headers, name.as_slice()) {
        Some(raw) => raw,
        None => return None,
    };
    let text = match string_from_utf8(raw) {
        Some(t) => t,
        None => return None,
    };
    if !text.as_str().is_ascii() {
        return None;
    }
    match parse_media_type(text.as_str()) {
        Some((top, sub, params)) => Some(MediaType { top, sub, params }),
        None => None,
    }
}

/// What a section's headers say it is: a text field with its name; a file with its name,
/// filename and content type; or a nested envelope with its name and boundary.
pub enum SectionView {
    Value(Seq<char>),
    File(Seq<char>, Option<Seq<char>>, (Seq<char>, Seq<char>, Seq<(Seq<char>, Seq<char>)>)),
    Mixed(Seq<char>, Seq<u8>),
}

/// How a section's parsed headers are read, in the outer walk (`form_mode`) or inside an
/// envelope whose files all go under `inherited`: the `Content-Disposition` header must be
/// there and parse; the section is then classified, and takes its name from the disposition
/// (or, for a file inside an envelope, the inherited name), its filename from the disposition,
/// its content type from its `Content-Type` header or `text/plain; charset=utf-8`, and an
/// envelope's boundary from its content type's `boundary` parameter.
pub open spec fn section_of(hv: Seq<(Seq<char>, Seq<u8>)>, form_mode: bool, inherited: Seq<char>) -> Result<SectionView, Failure> {
    match first_header(hv, disposition_header()) {
        None => Err(Failure::Fail(Error::MissingDisposition)),
        Some(raw) => match disposition_of(raw, false) {
            Err(e) => Err(e),
            Ok(d) => {
                let name = d.1;
                let filename = d.2;
                let ct = section_media(hv);
                match kind_of(form_mode, d.0, ct, filename is Some) {
                    None => Err(Failure::Fail(Error::InvalidDisposition)),
                    Some(SectionKind::Value) => match name {
                        None => Err(Failure::Fail(Error::NoName)),
                        Some(n) => Ok(SectionView::Value(n)),
                    },
                    Some(SectionKind::File) => {
                        let t = match ct {
                            Some(m) => m,
                            None => text_plain_view(),
                        };
                        if form_mode {
                            match name {
                                None => Err(Failure::Fail(Error::NoName)),
                                Some(n) => Ok(SectionView::File(n, filename, t)),
                            }
                        } else {
                            Ok(SectionView::File(inherited, filename, t))
                        }
                    },
                    Some(SectionKind::Mixed) => match first_param(ct.unwrap().2, "boundary"@) {
                        None => Err(Failure::Fail(Error::BoundaryNotSpecified)),
                        Some(b) => match name {
                            None => Err(Failure::Fail(Error::NoName)),
                            Some(n) => Ok(SectionView::Mixed(n, seq![45u8, 45] + encode_utf8(b))),
                        },
                    },
                }
            },
        },
    }
}

/// A classified section, with what capturing its body needs.
pub enum Section {
    Value { name: String },
    File { name: String, filename: Option<String>, content_type: MediaType },
    Mixed { name: String, boundary: Vec<u8> },
}

impl Section {
    pub open spec fn view(&self) -> SectionView {
        match self {
            Section::Value { name } => SectionView::Value(name@),
            Section::File { name, filename, content_type } => SectionView::File(
                name@,
                string_opt(*filename),
                media_view(*content_type),
            ),
            Section::Mixed { name, boundary } => SectionView::Mixed(name@, boundary@),
        }
    }
}

/// Reads a section's parsed headers; `inherited` is the envelope's name inside a nested
/// envelope, and `None` in the outer walk.
pub fn read_section(headers: &Vec<(String, Vec<u8>)>, inherited: &Option<String>) -> (r: Result<Section, Error>)
    ensures
        match r {
            Ok(sec) => section_of(header_views(headers@), inherited is None, match inherited {
                Some(n) => n@,
                None => Seq::empty(),
            }) == Ok::<SectionView, Failure>(sec.view()),
            Err(e) => section_of(header_views(headers@), inherited is None, match inherited {
                Some(n) => n@,
                None => Seq::empty(),
            }) is Err && fails_as(e, section_of(header_views(headers@), inherited is None, match inherited {
                Some(n) => n@,
                None => Seq::empty(),
            })->Err_0),
        },
{
    let name: Vec<u8> = vec![99u8, 111, 110, 116, 101, 110, 116, 45, 100, 105, 115, 112, 111, 115, 105, 116, 105, 111, 110];
    assert(name@ =~= disposition_header());
    let raw = match find_header(headers, name.as_slice()) {
        Some(raw) => raw,
        None => return Err(Error::MissingDisposition),
    };
    let cd = match ContentDisposition::parse_header(raw.as_slice()) {
        Ok(cd) => cd,
        Err(e) => return Err(e),
    };
    let ct = section_content_type(headers);
    let form_mode = inherited.is_none();
    let kind = section_kind(form_mode, &cd.disposition, &ct, cd.filename.is_some());
    match kind {
        None => Err(Error::InvalidDisposition),
        Some(SectionKind::Value) => match cd.name {
            None => Err(Error::NoName),
            Some(n) => Ok(Section::Value { name: n }),
        },
        Some(SectionKind::File) => {
            let t = match ct {
                Some(m) => m,
                None => MediaType::text_plain(),
            };
            proof {
                if ct is None {
                    assert(param_views(t.params@) =~= seq![("charset"@, "utf-8"@)]);
                }
            }
            match inherited {
                None => match cd.name {
                    None => Err(Error::NoName),
                    Some(n) => Ok(Section::File { name: n, filename: cd.filename, content_type: t }),
                },
                Some(n) => Ok(Section::File { name: n.clone(), filename: cd.filename, content_type: t }),
            }
        },
        Some(SectionKind::Mixed) => {
            let m = ct.unwrap();
            match find_param(&m.params, "boundary") {
                None => Err(Error::BoundaryNotSpecified),
                Some(b) => match cd.name {
                    None => Err(Error::NoName),
                    Some(n) => Ok(Section::Mixed { name: n, boundary: dashed(&b) }),
                },
            }
        },
    }
}


/// Scanning consumes no more than what is left, and at least the delimiter when it finds it.
pub proof fn lemma_scan_bounds(s: Seq<u8>, t: Seq<u8>)
    ensures
        0 <= scan_len(s, t) <= s.len(),
        scan_found(s, t) ==> t.len() <= scan_len(s, t),
{
    if scan_found(s, t) {
        let i = choose|i: int| crate::buf::is_first_match(s, t, i);
        assert(crate::buf::is_first_match(s, t, i));
    }
}

/// A media type's view: top level, sub level, parameters.
pub type MediaView = (Seq<char>, Seq<char>, Seq<(Seq<char>, Seq<char>)>);

/// A text field's view: name and text.
pub type FieldView = (Seq<char>, Seq<char>);

/// A file's view: the name it is filed under, then its filename, content type, size and bytes.
pub type FileView = (Seq<char>, (Option<Seq<char>>, MediaView, int, Seq<u8>));

/// What a walk yields: the text fields and files it met, in order, and the input left after
/// it; or why it failed.
pub type Walk = Result<(Seq<FieldView>, Seq<FileView>, Seq<u8>), Failure>;

/// `s` after the first occurrence of `t`.
pub open spec fn skip(s: Seq<u8>, t: Seq<u8>) -> Seq<u8> {
    s.subrange(scan_len(s, t), s.len() as int)
}

/// The walk `r` with `fields` and `files` met before it.
pub open spec fn prepend(fields: Seq<FieldView>, files: Seq<FileView>, r: Walk) -> Walk {
    match r {
        Ok(t) => Ok((fields + t.0, files + t.1, t.2)),
        Err(f) => Err(f),
    }
}

/// The name that files inside an envelope go under.
pub open spec fn inherited_name(inherited: Option<Seq<char>>) -> Seq<char> {
    match inherited {
        Some(n) => n,
        None => Seq::empty(),
    }
}

/// The walk over the sections of `s`, which stands just after a boundary: where `--` follows,
/// that boundary closed the body. Otherwise the rest of the boundary's line is skipped, the
/// header block up to the blank line is parsed and read, and the section's body, which runs to
/// the next `\r\n` and boundary, is captured as a text field or a file; a nested envelope is
/// walked with its own boundary and then skipped past the next boundary of this body. A
/// delimiter that is not found is `Eof`.
#[verifier::opaque]
pub open spec fn sections_from(s: Seq<u8>, b: Seq<u8>, inherited: Option<Seq<char>>) -> Walk
    decreases s.len(), 0int,
{
    if s.len() >= 2 && s.subrange(0, 2) == seq![45u8, 45] {
        Ok((Seq::empty(), Seq::empty(), s))
    } else if !scan_found(s, crlf()) {
        Err(Failure::Fail(Error::Eof))
    } else {
        let s1 = skip(s, crlf());
        if !scan_found(s1, blank_line()) {
            Err(Failure::Fail(Error::Eof))
        } else {
            let block = scan_sink(s1, blank_line()) + blank_line();
            let s2 = skip(s1, blank_line());
            proof {
                lemma_scan_bounds(s, crlf());
                lemma_scan_bounds(s1, blank_line());
            }
            match header_block(block) {
                Err(m) => Err(Failure::Malformed(m)),
                Ok(None) => Err(Failure::Fail(Error::PartialHeaders)),
                Ok(Some(hv)) => match section_of(hv, inherited is None, inherited_name(inherited)) {
                    Err(f) => Err(f),
                    Ok(SectionView::Value(n)) => {
                        let d = crlf() + b;
                        if !scan_found(s2, d) {
                            Err(Failure::Fail(Error::Eof))
                        } else if !valid_utf8(scan_sink(s2, d)) {
                            Err(Failure::Fail(Error::Utf8))
                        } else {
                            proof {
                                lemma_scan_bounds(s2, d);
                            }
                            prepend(
                                seq![(n, decode_utf8(scan_sink(s2, d)))],
                                Seq::empty(),
                                sections_from(skip(s2, d), b, inherited),
                            )
                        }
                    },
                    Ok(SectionView::File(n, filename, t)) => {
                        let d = crlf() + b;
                        if !scan_found(s2, d) {
                            Err(Failure::Fail(Error::Eof))
                        } else {
                            proof {
                                lemma_scan_bounds(s2, d);
                            }
                            let bytes = scan_sink(s2, d);
                            prepend(
                                Seq::empty(),
                                seq![(n, (filename, t, bytes.len() as int, bytes))],
                                sections_from(skip(s2, d), b, inherited),
                            )
                        }
                    },
                    Ok(SectionView::Mixed(n, nb)) => match walk_from(s2, nb, Some(n)) {
                        Err(f) => Err(f),
                        Ok(t) => if !scan_found(t.2, b) {
                            Err(Failure::Fail(Error::Eof))
                        } else if t.2.len() > s2.len() {
                            // Never taken: a nested walk leaves no more input than it was given
                            // (see `walk`), but the measure of this definition must be seen to fall.
                            Err(Failure::Fail(Error::Eof))
                        } else {
                            proof {
                                lemma_scan_bounds(t.2, b);
                            }
                            prepend(t.0, t.1, sections_from(skip(t.2, b), b, inherited))
                        },
                    },
                },
            }
        }
    }
}

/// The walk over a multipart body `s` delimited by `b`: everything before the first boundary is
/// skipped (`Eof` where there is none), then the sections follow.
#[verifier::opaque]
pub open spec fn walk_from(s: Seq<u8>, b: Seq<u8>, inherited: Option<Seq<char>>) -> Walk
    decreases s.len(), 1int,
{
    if !scan_found(s, b) {
        Err(Failure::Fail(Error::Eof))
    } else {
        proof {
            lemma_scan_bounds(s, b);
        }
        sections_from(skip(s, b), b, inherited)
    }
}

/// The views of text fields.
pub open spec fn fields_view(v: Seq<(String, String)>) -> Seq<FieldView> {
    v.map_values(|p: (String, String)| (p.0@, p.1@))
}

/// The views of files.
pub open spec fn files_view(v: Seq<(String, UploadedFile)>) -> Seq<FileView> {
    v.map_values(|p: (String, UploadedFile)| (p.0@, (string_opt(p.1.filename), media_view(p.1.content_type), p.1.size as int, p.1.contents@)))
}

/// Scans `reader` for `token`, dropping what comes before it; `Err(Eof)` where it is not found.
fn skip_past(reader: &mut ChunkReader, token: &[u8]) -> (r: Result<(), Error>)
    requires
        old(reader).wf(),
        token@.len() > 0,
    ensures
        final(reader).wf(),
        r is Ok <==> scan_found(old(reader).rest(), token@),
        r is Err ==> r matches Err(Error::Eof),
        final(reader).rest() == old(reader).rest().subrange(
            scan_len(old(reader).rest(), token@),
            old(reader).rest().len() as int,
        ),
{
    let mut sink: Vec<u8> = Vec::new();
    let (_, found) = reader.scan_token(token, &mut sink);
    if found {
        Ok(())
    } else {
        Err(Error::Eof)
    }
}

/// Scans `reader` for `token` and returns what came before it; `Err(Eof)` where it is not
/// found.
fn capture_until(reader: &mut ChunkReader, token: &[u8]) -> (r: Result<Vec<u8>, Error>)
    requires
        old(reader).wf(),
        token@.len() > 0,
    ensures
        final(reader).wf(),
        r is Ok <==> scan_found(old(reader).rest(), token@),
        match r {
            Ok(v) => v@ == scan_sink(old(reader).rest(), token@),
            Err(e) => e is Eof,
        },
        final(reader).rest() == old(reader).rest().subrange(
            scan_len(old(reader).rest(), token@),
            old(reader).rest().len() as int,
        ),
{
    let mut sink: Vec<u8> = Vec::new();
    let (_, found) = reader.scan_token(token, &mut sink);
    assert(sink@ =~= scan_sink(old(reader).rest(), token@));
    if found {
        Ok(sink)
    } else {
        Err(Error::Eof)
    }
}

/// `\r\n`.
pub open spec fn crlf() -> Seq<u8> {
    seq![13u8, 10]
}

/// `\r\n\r\n`, the blank line that ends a header block.
pub open spec fn blank_line() -> Seq<u8> {
    seq![13u8, 10, 13, 10]
}

pub proof fn lemma_prepend_twice(
    f1: Seq<FieldView>,
    l1: Seq<FileView>,
    f2: Seq<FieldView>,
    l2: Seq<FileView>,
    r: Walk,
)
    ensures
        prepend(f1, l1, prepend(f2, l2, r)) == prepend(f1 + f2, l1 + l2, r),
{
    match r {
        Ok(t) => {
            assert(f1 + (f2 + t.0) =~= (f1 + f2) + t.0);
            assert(l1 + (l2 + t.1) =~= (l1 + l2) + t.1);
        },
        Err(_) => {},
    }
}

/// Walks the sections of a multipart body delimited by `boundary` (with its leading `--`),
/// appending text fields and files to `form`: the outer `form-data` walk where `inherited` is
/// `None`, else a nested `multipart/mixed` envelope whose files all go under that name.
/// Returns once the closing boundary has been seen, having done what `walk_from` describes.
pub fn walk(reader: &mut ChunkReader, boundary: &Vec<u8>, inherited: &Option<String>, form: &mut FormData) -> (r: Result<(), Error>)
    requires
        old(reader).wf(),
        boundary@.len() > 0,
    ensures
        final(reader).wf(),
        final(reader).rest().len() <= old(reader).rest().len(),
        match walk_from(old(reader).rest(), boundary@, string_opt(*inherited)) {
            Ok(t) => {
                &&& r is Ok
                &&& fields_view(final(form).fields@) == fields_view(old(form).fields@) + t.0
                &&& files_view(final(form).files@) == files_view(old(form).files@) + t.1
                &&& final(reader).rest() == t.2
            },
            Err(f) => match r {
                Ok(_) => false,
                Err(e) => fails_as(e, f),
            },
        },
    decreases if inherited is None { 1int } else { 0int },
{
    reveal_with_fuel(sections_from, 1);
    reveal_with_fuel(walk_from, 1);
    let ghost inh = string_opt(*inherited);
    let ghost b = boundary@;
    let mut delim: Vec<u8> = Vec::new();
    delim.push(13);
    delim.push(10);
    let mut i: usize = 0;
    while i < boundary.len()
        invariant
            i <= boundary@.len(),
            delim@ == seq![13u8, 10] + boundary@.subrange(0, i as int),
        decreases boundary@.len() - i,
    {
        delim.push(boundary[i]);
        i = i + 1;
        assert(delim@ =~= seq![13u8, 10] + boundary@.subrange(0, i as int));
    }
    assert(boundary@.subrange(0, boundary@.len() as int) =~= boundary@);
    assert(delim@ == crlf() + b);
    let nl: Vec<u8> = vec![13u8, 10];
    let blank: Vec<u8> = vec![13u8, 10, 13, 10];
    let dashes: Vec<u8> = vec![45u8, 45];
    assert(nl@ =~= crlf());
    assert(blank@ =~= blank_line());
    let ghost s_start = reader.rest();
    let ghost fields0 = fields_view(form.fields@);
    let ghost files0 = files_view(form.files@);
    proof {
        lemma_scan_bounds(reader.rest(), b);
    }
    match skip_past(reader, boundary.as_slice()) {
        Ok(()) => {},
        Err(e) => return Err(e),
    }
    let ghost s0 = reader.rest();
    let ghost mut acc_f: Seq<FieldView> = Seq::empty();
    let ghost mut acc_l: Seq<FileView> = Seq::empty();
    proof {
        assert(fields_view(form.fields@) == fields0 + acc_f) by {
            assert(fields0 + acc_f =~= fields0);
        }
        assert(files_view(form.files@) == files0 + acc_l) by {
            assert(files0 + acc_l =~= files0);
        }
        match sections_from(s0, b, inh) {
            Ok(t) => {
                assert(acc_f + t.0 =~= t.0);
                assert(acc_l + t.1 =~= t.1);
            },
            Err(_) => {},
        }
    }
    loop
        invariant
            reader.wf(),
            reader.rest().len() <= s_start.len(),
            s_start == old(reader).rest(),
            b == boundary@,
            b.len() > 0,
            inh == string_opt(*inherited),
            delim@ == crlf() + b,
            nl@ == crlf(),
            blank@ == blank_line(),
            dashes@ == seq![45u8, 45],
            fields0 == fields_view(old(form).fields@),
            files0 == files_view(old(form).files@),
            fields_view(form.fields@) == fields0 + acc_f,
            files_view(form.files@) == files0 + acc_l,
            walk_from(s_start, b, inh) == sections_from(s0, b, inh),
            sections_from(s0, b, inh) == prepend(acc_f, acc_l, sections_from(reader.rest(), b, inh)),
        decreases reader.rest().len(),
    {
        reveal_with_fuel(sections_from, 1);
        reveal_with_fuel(walk_from, 1);
        let ghost s = reader.rest();
        if reader.starts_with(dashes.as_slice()) {
            assert(sections_from(s, b, inh) == Ok::<_, Failure>((Seq::<FieldView>::empty(), Seq::<FileView>::empty(), s)));
            assert(acc_f + Seq::<FieldView>::empty() =~= acc_f);
            assert(acc_l + Seq::<FileView>::empty() =~= acc_l);
            return Ok(());
        }
        proof {
            lemma_scan_bounds(s, crlf());
        }
        match skip_past(reader, nl.as_slice()) {
            Ok(()) => {},
            Err(e) => return Err(e),
        }
        let ghost s1 = reader.rest();
        proof {
            lemma_scan_bounds(s1, blank_line());
        }
        let mut block = match capture_until(reader, blank.as_slice()) {
            Ok(bl) => bl,
            Err(e) => return Err(e),
        };
        let ghost s2 = reader.rest();
        block.push(13);
        block.push(10);
        block.push(13);
        block.push(10);
        assert(block@ =~= scan_sink(s1, blank_line()) + blank_line());
        let headers = match parse_header_block(block.as_slice()) {
            Ok(Some(h)) => h,
            Ok(None) => return Err(Error::PartialHeaders),
            Err(m) => return Err(Error::Httparse(m)),
        };
        assert(inherited_name(inh) == match inherited {
            Some(n) => n@,
            None => Seq::<char>::empty(),
        });
        let section = match read_section(&headers, inherited) {
            Ok(sec) => sec,
            Err(e) => return Err(e),
        };
        match section {
            Section::Value { name } => {
                proof {
                    lemma_scan_bounds(s2, delim@);
                }
                let bytes = match capture_until(reader, delim.as_slice()) {
                    Ok(by) => by,
                    Err(e) => return Err(e),
                };
                let text = match string_from_utf8(bytes) {
                    Some(t) => t,
                    None => return Err(Error::Utf8),
                };
                let ghost item = (name@, text@);
                let ghost prev = form.fields@;
                form.fields.push((name, text));
                proof {
                    assert(fields_view(form.fields@) =~= fields_view(prev) + seq![item]);
                    lemma_prepend_twice(acc_f, acc_l, seq![item], Seq::empty(), sections_from(reader.rest(), b, inh));
                    assert(acc_l + Seq::<FileView>::empty() =~= acc_l);
                    assert(fields0 + acc_f + seq![item] =~= fields0 + (acc_f + seq![item]));
                    acc_f = acc_f + seq![item];
                }
            },
            Section::File { name, filename, content_type } => {
                proof {
                    lemma_scan_bounds(s2, delim@);
                }
                let contents = match capture_until(reader, delim.as_slice()) {
                    Ok(by) => by,
                    Err(e) => return Err(e),
                };
                let size = contents.len();
                let ghost item = (name@, (string_opt(filename), media_view(content_type), size as int, contents@));
                let ghost prev = form.files@;
                form.files.push((name, UploadedFile { filename, content_type, size, contents }));
                proof {
                    assert(files_view(form.files@) =~= files_view(prev) + seq![item]);
                    lemma_prepend_twice(acc_f, acc_l, Seq::empty(), seq![item], sections_from(reader.rest(), b, inh));
                    assert(acc_f + Seq::<FieldView>::empty() =~= acc_f);
                    assert(files0 + acc_l + seq![item] =~= files0 + (acc_l + seq![item]));
                    acc_l = acc_l + seq![item];
                }
            },
            Section::Mixed { name, boundary: nested } => {
                assert(nested@.len() >= 2);
                let ghost n = name@;
                let inner = Some(name);
                let ghost f_before = fields_view(form.fields@);
                let ghost l_before = files_view(form.files@);
                match walk(reader, &nested, &inner, form) {
                    Ok(()) => {},
                    Err(e) => return Err(e),
                }
                let ghost t = walk_from(s2, nested@, Some(n))->Ok_0;
                let ghost s3 = reader.rest();
                proof {
                    lemma_scan_bounds(s3, b);
                }
                match skip_past(reader, boundary.as_slice()) {
                    Ok(()) => {},
                    Err(e) => return Err(e),
                }
                proof {
                    lemma_prepend_twice(acc_f, acc_l, t.0, t.1, sections_from(reader.rest(), b, inh));
                    assert(fields0 + acc_f + t.0 =~= fields0 + (acc_f + t.0));
                    assert(files0 + acc_l + t.1 =~= files0 + (acc_l + t.1));
                    acc_f = acc_f + t.0;
                    acc_l = acc_l + t.1;
                }
            },
        }
    }
}

/// A section without a `Content-Disposition` header is an error, `MissingDisposition`, in
/// either walk.
pub proof fn lemma_missing_disposition(hv: Seq<(Seq<char>, Seq<u8>)>, form_mode: bool, inherited: Seq<char>)
    requires
        first_header(hv, disposition_header()) is None,
    ensures
        section_of(hv, form_mode, inherited) == Err::<SectionView, Failure>(Failure::Fail(Error::MissingDisposition)),
{
}

/// A text field, or a file of the outer walk, whose disposition gives no `name` is an error,
/// `NoName`.
pub proof fn lemma_missing_name(
    hv: Seq<(Seq<char>, Seq<u8>)>,
    raw: Seq<u8>,
    d: (Seq<char>, Option<Seq<char>>, Option<Seq<char>>),
    inherited: Seq<char>,
)
    requires
        first_header(hv, disposition_header()) == Some(raw),
        disposition_of(raw, false) == Ok::<_, Failure>(d),
        d.1 is None,
        kind_of(true, d.0, section_media(hv), d.2 is Some) == Some(SectionKind::Value)
            || kind_of(true, d.0, section_media(hv), d.2 is Some) == Some(SectionKind::File),
    ensures
        section_of(hv, true, inherited) == Err::<SectionView, Failure>(Failure::Fail(Error::NoName)),
{
}

proof fn lemma_sections_in_envelope(s: Seq<u8>, b: Seq<u8>, n: Seq<char>)
    ensures
        sections_from(s, b, Some(n)) is Ok ==> {
            let t = sections_from(s, b, Some(n))->Ok_0;
            t.0.len() == 0 && forall|i: int| 0 <= i < t.1.len() ==> #[trigger] t.1[i].0 == n
        },
    decreases s.len(),
{
    reveal_with_fuel(sections_from, 1);
    reveal_with_fuel(walk_from, 1);
    if !(s.len() >= 2 && s.subrange(0, 2) == seq![45u8, 45]) && scan_found(s, crlf()) {
        let s1 = skip(s, crlf());
        if scan_found(s1, blank_line()) {
            lemma_scan_bounds(s, crlf());
            lemma_scan_bounds(s1, blank_line());
            let s2 = skip(s1, blank_line());
            let block = scan_sink(s1, blank_line()) + blank_line();
            match header_block(block) {
                Ok(Some(hv)) => match section_of(hv, false, n) {
                    Ok(SectionView::File(m, fname, t)) => {
                        let d = crlf() + b;
                        if scan_found(s2, d) {
                            lemma_scan_bounds(s2, d);
                            lemma_sections_in_envelope(skip(s2, d), b, n);
                            let item = (m, (fname, t, scan_sink(s2, d).len() as int, scan_sink(s2, d)));
                            let rest = sections_from(skip(s2, d), b, Some(n));
                            if rest is Ok {
                                let u = rest->Ok_0;
                                let all = seq![item] + u.1;
                                assert forall|i: int| 0 <= i < all.len() implies #[trigger] all[i].0 == n by {
                                    if i > 0 {
                                        assert(all[i] == u.1[i - 1]);
                                    }
                                }
                            }
                        }
                    },
                    _ => {},
                },
                _ => {},
            }
        }
    }
}

/// Every file found inside a nested `multipart/mixed` envelope is filed under the envelope's
/// name, and such an envelope holds no text fields.
pub proof fn lemma_envelope_files_share_name(s: Seq<u8>, b: Seq<u8>, n: Seq<char>)
    ensures
        walk_from(s, b, Some(n)) is Ok ==> {
            let t = walk_from(s, b, Some(n))->Ok_0;
            t.0.len() == 0 && forall|i: int| 0 <= i < t.1.len() ==> #[trigger] t.1[i].0 == n
        },
{
    reveal_with_fuel(sections_from, 1);
    reveal_with_fuel(walk_from, 1);
    if scan_found(s, b) {
        lemma_scan_bounds(s, b);
        lemma_sections_in_envelope(skip(s, b), b, n);
    }
}

proof fn lemma_sections_stop_at_closing(s: Seq<u8>, b: Seq<u8>, inherited: Option<Seq<char>>)
    ensures
        sections_from(s, b, inherited) is Ok ==> {
            let rest = sections_from(s, b, inherited)->Ok_0.2;
            rest.len() >= 2 && rest.subrange(0, 2) == seq![45u8, 45] && rest.len() <= s.len()
        },
    decreases s.len(),
{
    reveal_with_fuel(sections_from, 1);
    reveal_with_fuel(walk_from, 1);
    if !(s.len() >= 2 && s.subrange(0, 2) == seq![45u8, 45]) && scan_found(s, crlf()) {
        let s1 = skip(s, crlf());
        if scan_found(s1, blank_line()) {
            lemma_scan_bounds(s, crlf());
            lemma_scan_bounds(s1, blank_line());
            let s2 = skip(s1, blank_line());
            let block = scan_sink(s1, blank_line()) + blank_line();
            let d = crlf() + b;
            match header_block(block) {
                Ok(Some(hv)) => match section_of(hv, inherited is None, inherited_name(inherited)) {
                    Ok(SectionView::Value(_)) => {
                        if scan_found(s2, d) {
                            lemma_scan_bounds(s2, d);
                            lemma_sections_stop_at_closing(skip(s2, d), b, inherited);
                        }
                    },
                    Ok(SectionView::File(_, _, _)) => {
                        if scan_found(s2, d) {
                            lemma_scan_bounds(s2, d);
                            lemma_sections_stop_at_closing(skip(s2, d), b, inherited);
                        }
                    },
                    Ok(SectionView::Mixed(n, nb)) => {
                        match walk_from(s2, nb, Some(n)) {
                            Ok(t) => {
                                if scan_found(t.2, b) && t.2.len() <= s2.len() {
                                    lemma_scan_bounds(t.2, b);
                                    lemma_sections_stop_at_closing(skip(t.2, b), b, inherited);
                                }
                            },
                            Err(_) => {},
                        }
                    },
                    Err(_) => {},
                },
                _ => {},
            }
        }
    }
}

/// A walk succeeds only where it reached a closing boundary: the input it leaves begins with
/// the `--` that closes the body. A body that ends before its closing boundary fails.
pub proof fn lemma_walk_needs_closing_boundary(s: Seq<u8>, b: Seq<u8>, inherited: Option<Seq<char>>)
    ensures
        walk_from(s, b, inherited) is Ok ==> {
            let rest = walk_from(s, b, inherited)->Ok_0.2;
            rest.len() >= 2 && rest.subrange(0, 2) == seq![45u8, 45] && rest.len() <= s.len()
        },
{
    reveal_with_fuel(sections_from, 1);
    reveal_with_fuel(walk_from, 1);
    if scan_found(s, b) {
        lemma_scan_bounds(s, b);
        lemma_sections_stop_at_closing(skip(s, b), b, inherited);
    }
}

/// `s` begins with the `--` that closes a body.
pub open spec fn closes(s: Seq<u8>) -> bool {
    s.len() >= 2 && s.subrange(0, 2) == seq![45u8, 45]
}

/// A section that starts at `s`, just after a boundary, has a complete header block: the line
/// break after the boundary and the blank line are both there.
pub open spec fn has_header_block(s: Seq<u8>) -> bool {
    !closes(s) && scan_found(s, crlf()) && scan_found(skip(s, crlf()), blank_line())
}

/// The header block of the section that starts at `s`, blank line included.
pub open spec fn header_bytes(s: Seq<u8>) -> Seq<u8> {
    scan_sink(skip(s, crlf()), blank_line()) + blank_line()
}

/// The body of the section that starts at `s`, with what follows it.
pub open spec fn after_headers(s: Seq<u8>) -> Seq<u8> {
    skip(skip(s, crlf()), blank_line())
}

/// An error met in a later section is what the whole walk ends in, whatever the sections before
/// it yielded.
pub proof fn lemma_error_ends_walk(fields: Seq<FieldView>, files: Seq<FileView>, r: Walk)
    requires
        r is Err,
    ensures
        prepend(fields, files, r) == r,
{
}

/// In a body, a section whose header block has no `Content-Disposition` header ends the walk with
/// `MissingDisposition`, in the outer walk and inside an envelope alike.
pub proof fn lemma_walk_missing_disposition(
    s: Seq<u8>,
    b: Seq<u8>,
    inherited: Option<Seq<char>>,
    hv: Seq<(Seq<char>, Seq<u8>)>,
)
    requires
        has_header_block(s),
        header_block(header_bytes(s)) == Ok::<_, Seq<char>>(Some(hv)),
        first_header(hv, disposition_header()) is None,
    ensures
        sections_from(s, b, inherited) == Err::<(Seq<FieldView>, Seq<FileView>, Seq<u8>), Failure>(
            Failure::Fail(Error::MissingDisposition),
        ),
{
    reveal_with_fuel(sections_from, 1);
    reveal_with_fuel(walk_from, 1);
    lemma_scan_bounds(s, crlf());
    lemma_scan_bounds(skip(s, crlf()), blank_line());
}

/// In the outer walk, a text field, a file or an envelope (one whose content type gives a
/// boundary) whose disposition gives no `name` ends the walk with `NoName`.
pub proof fn lemma_walk_missing_name(
    s: Seq<u8>,
    b: Seq<u8>,
    hv: Seq<(Seq<char>, Seq<u8>)>,
    raw: Seq<u8>,
    d: (Seq<char>, Option<Seq<char>>, Option<Seq<char>>),
)
    requires
        has_header_block(s),
        header_block(header_bytes(s)) == Ok::<_, Seq<char>>(Some(hv)),
        first_header(hv, disposition_header()) == Some(raw),
        disposition_of(raw, false) == Ok::<_, Failure>(d),
        d.1 is None,
        kind_of(true, d.0, section_media(hv), d.2 is Some) == Some(SectionKind::Value)
            || kind_of(true, d.0, section_media(hv), d.2 is Some) == Some(SectionKind::File)
            || (kind_of(true, d.0, section_media(hv), d.2 is Some) == Some(SectionKind::Mixed)
            && first_param(section_media(hv).unwrap().2, "boundary"@) is Some),
    ensures
        sections_from(s, b, None) == Err::<(Seq<FieldView>, Seq<FileView>, Seq<u8>), Failure>(
            Failure::Fail(Error::NoName),
        ),
{
    reveal_with_fuel(sections_from, 1);
    reveal_with_fuel(walk_from, 1);
    lemma_scan_bounds(s, crlf());
    lemma_scan_bounds(skip(s, crlf()), blank_line());
}

/// In a body, a text field or file whose contents run to the end of the input, with no line
/// break and boundary after them, ends the walk with `Eof`: a truncated body fails so.
pub proof fn lemma_walk_truncated(
    s: Seq<u8>,
    b: Seq<u8>,
    inherited: Option<Seq<char>>,
    hv: Seq<(Seq<char>, Seq<u8>)>,
    sec: SectionView,
)
    requires
        has_header_block(s),
        header_block(header_bytes(s)) == Ok::<_, Seq<char>>(Some(hv)),
        section_of(hv, inherited is None, inherited_name(inherited)) == Ok::<_, Failure>(sec),
        sec is Value || sec is File,
        !scan_found(after_headers(s), crlf() + b),
    ensures
        sections_from(s, b, inherited) == Err::<(Seq<FieldView>, Seq<FileView>, Seq<u8>), Failure>(
            Failure::Fail(Error::Eof),
        ),
{
    reveal_with_fuel(sections_from, 1);
    reveal_with_fuel(walk_from, 1);
    lemma_scan_bounds(s, crlf());
    lemma_scan_bounds(skip(s, crlf()), blank_line());
}

/// In the outer walk, a `multipart/mixed` envelope named `n` whose files the nested walk yields
/// as `t` adds exactly those files, in order, each filed under `n` with its own filename, type and
/// size, and no text field; the walk then goes on past the outer body's next boundary.
pub proof fn lemma_walk_envelope(
    s: Seq<u8>,
    b: Seq<u8>,
    hv: Seq<(Seq<char>, Seq<u8>)>,
    n: Seq<char>,
    nb: Seq<u8>,
    t: (Seq<FieldView>, Seq<FileView>, Seq<u8>),
)
    requires
        has_header_block(s),
        header_block(header_bytes(s)) == Ok::<_, Seq<char>>(Some(hv)),
        section_of(hv, true, Seq::empty()) == Ok::<_, Failure>(SectionView::Mixed(n, nb)),
        walk_from(after_headers(s), nb, Some(n)) == Ok::<_, Failure>(t),
        scan_found(t.2, b),
    ensures
        t.0.len() == 0,
        forall|i: int| 0 <= i < t.1.len() ==> #[trigger] t.1[i].0 == n,
        sections_from(s, b, None) == prepend(Seq::empty(), t.1, sections_from(skip(t.2, b), b, None)),
{
    reveal_with_fuel(sections_from, 1);
    reveal_with_fuel(walk_from, 1);
    lemma_scan_bounds(s, crlf());
    lemma_scan_bounds(skip(s, crlf()), blank_line());
    lemma_envelope_files_share_name(after_headers(s), nb, n);
    lemma_walk_needs_closing_boundary(after_headers(s), nb, Some(n));
}

/// The walk over a whole body arrives at a section that starts at `s`, every section before it
/// valid and having yielded `fields` and `files`.
pub open spec fn walk_reaches(
    body: Seq<u8>,
    b: Seq<u8>,
    inherited: Option<Seq<char>>,
    s: Seq<u8>,
    fields: Seq<FieldView>,
    files: Seq<FileView>,
) -> bool {
    walk_from(body, b, inherited) == prepend(fields, files, sections_from(s, b, inherited))
}

/// A body in which the walk reaches a section without a `Content-Disposition` header fails with
/// `MissingDisposition`.
pub proof fn lemma_body_missing_disposition(
    body: Seq<u8>,
    b: Seq<u8>,
    inherited: Option<Seq<char>>,
    s: Seq<u8>,
    fields: Seq<FieldView>,
    files: Seq<FileView>,
    hv: Seq<(Seq<char>, Seq<u8>)>,
)
    requires
        walk_reaches(body, b, inherited, s, fields, files),
        has_header_block(s),
        header_block(header_bytes(s)) == Ok::<_, Seq<char>>(Some(hv)),
        first_header(hv, disposition_header()) is None,
    ensures
        walk_from(body, b, inherited) == Err::<(Seq<FieldView>, Seq<FileView>, Seq<u8>), Failure>(
            Failure::Fail(Error::MissingDisposition),
        ),
{
    lemma_walk_missing_disposition(s, b, inherited, hv);
}

/// A body in which the outer walk reaches a text field, a file or an envelope (with a boundary)
/// whose disposition gives no `name` fails with `NoName`.
pub proof fn lemma_body_missing_name(
    body: Seq<u8>,
    b: Seq<u8>,
    s: Seq<u8>,
    fields: Seq<FieldView>,
    files: Seq<FileView>,
    hv: Seq<(Seq<char>, Seq<u8>)>,
    raw: Seq<u8>,
    d: (Seq<char>, Option<Seq<char>>, Option<Seq<char>>),
)
    requires
        walk_reaches(body, b, None, s, fields, files),
        has_header_block(s),
        header_block(header_bytes(s)) == Ok::<_, Seq<char>>(Some(hv)),
        first_header(hv, disposition_header()) == Some(raw),
        disposition_of(raw, false) == Ok::<_, Failure>(d),
        d.1 is None,
        kind_of(true, d.0, section_media(hv), d.2 is Some) == Some(SectionKind::Value)
            || kind_of(true, d.0, section_media(hv), d.2 is Some) == Some(SectionKind::File)
            || (kind_of(true, d.0, section_media(hv), d.2 is Some) == Some(SectionKind::Mixed)
            && first_param(section_media(hv).unwrap().2, "boundary"@) is Some),
    ensures
        walk_from(body, b, None) == Err::<(Seq<FieldView>, Seq<FileView>, Seq<u8>), Failure>(
            Failure::Fail(Error::NoName),
        ),
{
    lemma_walk_missing_name(s, b, hv, raw, d);
}

/// A body in which the walk reaches a text field or file whose contents run to the end of the
/// input, the closing boundary never coming, fails with `Eof`.
pub proof fn lemma_body_truncated(
    body: Seq<u8>,
    b: Seq<u8>,
    inherited: Option<Seq<char>>,
    s: Seq<u8>,
    fields: Seq<FieldView>,
    files: Seq<FileView>,
    hv: Seq<(Seq<char>, Seq<u8>)>,
    sec: SectionView,
)
    requires
        walk_reaches(body, b, inherited, s, fields, files),
        has_header_block(s),
        header_block(header_bytes(s)) == Ok::<_, Seq<char>>(Some(hv)),
        section_of(hv, inherited is None, inherited_name(inherited)) == Ok::<_, Failure>(sec),
        sec is Value || sec is File,
        !scan_found(after_headers(s), crlf() + b),
    ensures
        walk_from(body, b, inherited) == Err::<(Seq<FieldView>, Seq<FileView>, Seq<u8>), Failure>(
            Failure::Fail(Error::Eof),
        ),
{
    lemma_walk_truncated(s, b, inherited, hv, sec);
}

/// A body in which the outer walk reaches a `multipart/mixed` envelope named `n`, whose nested
/// walk yields `t`: the body's files continue with exactly `t`'s files, each under `n` with its
/// own filename, type and size, no text field is added, and the walk goes on after the outer
/// body's next boundary.
pub proof fn lemma_body_envelope(
    body: Seq<u8>,
    b: Seq<u8>,
    s: Seq<u8>,
    fields: Seq<FieldView>,
    files: Seq<FileView>,
    hv: Seq<(Seq<char>, Seq<u8>)>,
    n: Seq<char>,
    nb: Seq<u8>,
    t: (Seq<FieldView>, Seq<FileView>, Seq<u8>),
)
    requires
        walk_reaches(body, b, None, s, fields, files),
        has_header_block(s),
        header_block(header_bytes(s)) == Ok::<_, Seq<char>>(Some(hv)),
        section_of(hv, true, Seq::empty()) == Ok::<_, Failure>(SectionView::Mixed(n, nb)),
        walk_from(after_headers(s), nb, Some(n)) == Ok::<_, Failure>(t),
        scan_found(t.2, b),
    ensures
        t.0.len() == 0,
        forall|i: int| 0 <= i < t.1.len() ==> #[trigger] t.1[i].0 == n,
        walk_reaches(body, b, None, skip(t.2, b), fields, files + t.1),
{
    reveal_with_fuel(sections_from, 1);
    reveal_with_fuel(walk_from, 1);
    lemma_walk_envelope(s, b, hv, n, nb, t);
    match sections_from(skip(t.2, b), b, None) {
        Ok(u) => {
            assert(fields + (Seq::<FieldView>::empty() + u.0) =~= fields + u.0);
            assert(files + (t.1 + u.1) =~= (files + t.1) + u.1);
        },
        Err(_) => {},
    }
}

/// The rest of a text field's step: its body `s2` runs to the body delimiter, is UTF-8, and the
/// walk goes on after it.
pub open spec fn value_step(s2: Seq<u8>, n: Seq<char>, b: Seq<u8>, inherited: Option<Seq<char>>) -> Walk {
    let d = crlf() + b;
    if !scan_found(s2, d) {
        Err(Failure::Fail(Error::Eof))
    } else if !valid_utf8(scan_sink(s2, d)) {
        Err(Failure::Fail(Error::Utf8))
    } else {
        prepend(seq![(n, decode_utf8(scan_sink(s2, d)))], Seq::empty(), sections_from(skip(s2, d), b, inherited))
    }
}

/// The rest of a file's step: its body `s2` runs to the body delimiter, and the walk goes on
/// after it.
pub open spec fn file_step(
    s2: Seq<u8>,
    n: Seq<char>,
    filename: Option<Seq<char>>,
    t: MediaView,
    b: Seq<u8>,
    inherited: Option<Seq<char>>,
) -> Walk {
    let d = crlf() + b;
    if !scan_found(s2, d) {
        Err(Failure::Fail(Error::Eof))
    } else {
        prepend(
            Seq::empty(),
            seq![(n, (filename, t, scan_sink(s2, d).len() as int, scan_sink(s2, d)))],
            sections_from(skip(s2, d), b, inherited),
        )
    }
}

/// One section's step of the walk, from its header block on.
pub open spec fn section_step(sec: Seq<u8>, b: Seq<u8>, inherited: Option<Seq<char>>) -> Walk {
    let s2 = after_headers(sec);
    match header_block(header_bytes(sec)) {
        Err(m) => Err(Failure::Malformed(m)),
        Ok(None) => Err(Failure::Fail(Error::PartialHeaders)),
        Ok(Some(hv)) => match section_of(hv, inherited is None, inherited_name(inherited)) {
            Err(f) => Err(f),
            Ok(SectionView::Value(n)) => value_step(s2, n, b, inherited),
            Ok(SectionView::File(n, filename, t)) => file_step(s2, n, filename, t, b, inherited),
            Ok(SectionView::Mixed(n, nb)) => match walk_from(s2, nb, Some(n)) {
                Err(f) => Err(f),
                Ok(t) => if !scan_found(t.2, b) {
                    Err(Failure::Fail(Error::Eof))
                } else if t.2.len() > s2.len() {
                    Err(Failure::Fail(Error::Eof))
                } else {
                    prepend(t.0, t.1, sections_from(skip(t.2, b), b, inherited))
                },
            },
        },
    }
}

/// The walk over a section with a complete header block is its step.
pub proof fn lemma_section_step(sec: Seq<u8>, b: Seq<u8>, inherited: Option<Seq<char>>)
    requires
        has_header_block(sec),
    ensures
        sections_from(sec, b, inherited) == section_step(sec, b, inherited),
{
    reveal_with_fuel(sections_from, 1);
    reveal_with_fuel(walk_from, 1);
    lemma_scan_bounds(sec, crlf());
    lemma_scan_bounds(skip(sec, crlf()), blank_line());
}

/// The walk over a section whose header block is cut short ends in `Eof`.
pub proof fn lemma_section_cut(sec: Seq<u8>, b: Seq<u8>, inherited: Option<Seq<char>>)
    requires
        !closes(sec),
        !has_header_block(sec),
    ensures
        sections_from(sec, b, inherited) == Err::<(Seq<FieldView>, Seq<FileView>, Seq<u8>), Failure>(
            Failure::Fail(Error::Eof),
        ),
{
    reveal_with_fuel(sections_from, 1);
    reveal_with_fuel(walk_from, 1);
}

/// The walk after a boundary: closed, or a section.
pub proof fn lemma_sections_closed(s: Seq<u8>, b: Seq<u8>, inherited: Option<Seq<char>>)
    requires
        closes(s),
    ensures
        sections_from(s, b, inherited) == Ok::<_, Failure>((Seq::<FieldView>::empty(), Seq::<FileView>::empty(), s)),
{
    reveal_with_fuel(sections_from, 1);
    reveal_with_fuel(walk_from, 1);
}

/// The walk from before a boundary.
pub proof fn lemma_walk_step(s: Seq<u8>, b: Seq<u8>, inherited: Option<Seq<char>>)
    ensures
        scan_found(s, b) ==> walk_from(s, b, inherited) == sections_from(skip(s, b), b, inherited),
        !scan_found(s, b) ==> walk_from(s, b, inherited) == Err::<(Seq<FieldView>, Seq<FileView>, Seq<u8>), Failure>(
            Failure::Fail(Error::Eof),
        ),
{
    reveal_with_fuel(sections_from, 1);
    reveal_with_fuel(walk_from, 1);
}

/// Decodes a `multipart/form-data` body whose request has the given content type into its
/// text fields and files: the content type is checked first, then the body is walked as
/// `walk_from` describes.
pub fn read_formdata(reader: &mut ChunkReader, content_type: Option<&str>) -> (r: Result<FormData, Error>)
    requires
        old(reader).wf(),
    ensures
        final(reader).wf(),
        request_boundary(
            match content_type {
                Some(c) => Some(c@),
                None => None,
            },
        ) is Err ==> final(reader).rest() == old(reader).rest(),
        match request_boundary(
            match content_type {
                Some(c) => Some(c@),
                None => None,
            },
        ) {
            Err(e) => match r {
                Ok(_) => false,
                Err(e2) => e2 == e,
            },
            Ok(b) => match walk_from(old(reader).rest(), b, None) {
                Ok(t) => match r {
                    Ok(fd) => fields_view(fd.fields@) == t.0 && files_view(fd.files@) == t.1,
                    Err(_) => false,
                },
                Err(f) => match r {
                    Ok(_) => false,
                    Err(e) => fails_as(e, f),
                },
            },
        },
{
    let boundary = match form_boundary(content_type) {
        Ok(b) => b,
        Err(e) => return Err(e),
    };
    let mut form = FormData::new();
    assert(fields_view(form.fields@) =~= Seq::empty());
    assert(files_view(form.files@) =~= Seq::empty());
    let none: Option<String> = None;
    match walk(reader, &boundary, &none, &mut form) {
        Ok(()) => {
            proof {
                let t = walk_from(old(reader).rest(), boundary@, None)->Ok_0;
                assert(Seq::<FieldView>::empty() + t.0 =~= t.0);
                assert(Seq::<FileView>::empty() + t.1 =~= t.1);
            }
            Ok(form)
        },
        Err(e) => Err(e),
    }
}

} // verus!
