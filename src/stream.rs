//! The state machine of `multipart` turned inside out, for a body that arrives from a stream:
//! the parser says what to scan for next and where the bytes before it go, the driver runs a
//! `Scanner` over the stream and reports the outcome, and the parser decides. File bodies never
//! pass through the parser: the driver streams them wherever it keeps files.

use crate::error::{fails_as, Error, Failure};
use crate::form_data::MediaType;
use crate::headers::string_opt;
use crate::buf::{scan_found, scan_sink, ChunkReader};
use crate::form_data::{FormData, UploadedFile};
use crate::multipart::{
    after_headers, blank_line, closes, crlf, fields_view, files_view, form_boundary, has_header_block,
    header_bytes, inherited_name, lemma_prepend_twice, lemma_scan_bounds, lemma_section_cut,
    lemma_section_step, lemma_sections_closed, lemma_walk_step, media_view, prepend, read_section,
    request_boundary, section_of, section_step, sections_from, skip, walk_from, FieldView, FileView,
    Section, SectionView, Walk,
};
use crate::outside::{header_block, header_views, parse_header_block, string_from_utf8};
use vstd::prelude::*;
use vstd::utf8::{decode_utf8, valid_utf8};

verus! {

/// Where the bytes before the delimiter of a scan go.
#[derive(Clone, Copy, Debug, PartialEq, Eq)]
pub enum Sink {
    /// Nowhere.
    Discard,
    /// Back to the parser, with the outcome: a header block or a text field.
    Keep,
    /// Into the file that the last `FileStart` opened.
    File,
}

/// What the parser needs next.
#[derive(Clone, Debug, PartialEq)]
pub enum Want {
    /// Scan for the delimiter, sending what comes before it to the sink.
    Scan(Vec<u8>, Sink),
    /// Tell whether the input now begins with `--`, consuming nothing.
    Peek,
    /// Nothing: the body has been decoded.
    Finished,
}

/// What the parser found.
#[derive(Clone, Debug, PartialEq)]
pub enum Event {
    /// A text field, with its name and text.
    Field(String, String),
    /// A file begins, with the name it is filed under, its filename and its content type; its
    /// bytes are those of the next scan.
    FileStart(String, Option<String>, MediaType),
    /// The file that began ends, with its size.
    FileEnd(usize),
}

/// Where the parser stands.
#[derive(Clone, Debug, PartialEq)]
pub enum Phase {
    /// Skipping to the next boundary.
    Discarding,
    /// Just after a boundary: is it the closing one?
    AfterBoundary,
    /// Skipping the rest of the boundary's line.
    LineRest,
    /// Reading a header block.
    Headers,
    /// Reading a text field with this name.
    Value(String),
    /// Streaming a file.
    File,
    /// Done.
    Finished,
}

/// A `multipart/form-data` parser driven by the outcomes of scans.
pub struct FormParser {
    boundary: Vec<u8>,
    outer: Option<Vec<u8>>,
    inherited: Option<String>,
    phase: Phase,
}

/// The delimiter that ends a section's body: a line break and the boundary.
pub open spec fn body_delimiter(b: Seq<u8>) -> Seq<u8> {
    crlf() + b
}

impl FormParser {
    /// The parser's invariant: its boundary is not empty, it is nested exactly where it holds
    /// an outer boundary, which is not empty either.
    pub closed spec fn wf(&self) -> bool {
        &&& self.boundary@.len() > 0
        &&& (self.outer is Some <==> self.inherited is Some)
        &&& match self.outer {
            Some(o) => o@.len() > 0,
            None => true,
        }
    }

    /// The boundary of the envelope being walked, with its leading `--`.
    pub closed spec fn boundary(&self) -> Seq<u8> {
        self.boundary@
    }

    /// The outer body's boundary, inside a nested envelope.
    pub closed spec fn outer(&self) -> Option<Seq<u8>> {
        match self.outer {
            Some(o) => Some(o@),
            None => None,
        }
    }

    /// The name that the files of a nested envelope go under.
    pub closed spec fn inherited(&self) -> Option<Seq<char>> {
        string_opt(self.inherited)
    }

    /// Where the parser stands.
    pub closed spec fn phase(&self) -> Phase {
        self.phase
    }

    /// Where the parser stands, as a number: `Discarding` 0, `AfterBoundary` 1, `LineRest` 2,
    /// `Headers` 3, `Value` 4, `File` 5, `Finished` 6.
    pub fn phase_number(&self) -> (r: u8)
        ensures
            r == match self.phase() {
                Phase::Discarding => 0u8,
                Phase::AfterBoundary => 1u8,
                Phase::LineRest => 2u8,
                Phase::Headers => 3u8,
                Phase::Value(_) => 4u8,
                Phase::File => 5u8,
                Phase::Finished => 6u8,
            },
    {
        match &self.phase {
            Phase::Discarding => 0,
            Phase::AfterBoundary => 1,
            Phase::LineRest => 2,
            Phase::Headers => 3,
            Phase::Value(_) => 4,
            Phase::File => 5,
            Phase::Finished => 6,
        }
    }

    /// Whether the parser is inside a nested envelope.
    pub fn is_nested(&self) -> (r: bool)
        ensures
            r == self.outer() is Some,
    {
        self.outer.is_some()
    }

    /// A parser for a request with the given content type, which must be `multipart/form-data`
    /// with a boundary (see `request_boundary`); it starts by skipping to the first boundary.
    pub fn new(content_type: Option<&str>) -> (r: Result<FormParser, Error>)
        ensures
            match request_boundary(
                match content_type {
                    Some(c) => Some(c@),
                    None => None,
                },
            ) {
                Ok(b) => r is Ok && r->Ok_0.wf() && r->Ok_0.boundary() == b && r->Ok_0.outer() is None
                    && r->Ok_0.phase() == Phase::Discarding,
                Err(e) => r is Err && r->Err_0 == e,
            },
    {
        match form_boundary(content_type) {
            Ok(b) => Ok(FormParser { boundary: b, outer: None, inherited: None, phase: Phase::Discarding }),
            Err(e) => Err(e),
        }
    }

    /// What the parser needs next: in `Discarding`, the boundary, dropping what precedes it;
    /// in `LineRest`, a line break, dropping the rest of the line; in `Headers`, the blank line,
    /// keeping the header block; in `Value`, the body delimiter, keeping the text; in `File`,
    /// the body delimiter, into the file; in `AfterBoundary`, a look at the next two bytes.
    pub fn want(&self) -> (w: Want)
        requires
            self.wf(),
        ensures
            match self.phase() {
                Phase::Discarding => w matches Want::Scan(t, s) && t@ == self.boundary() && s == Sink::Discard,
                Phase::AfterBoundary => w is Peek,
                Phase::LineRest => w matches Want::Scan(t, s) && t@ == crlf() && s == Sink::Discard,
                Phase::Headers => w matches Want::Scan(t, s) && t@ == blank_line() && s == Sink::Keep,
                Phase::Value(_) => w matches Want::Scan(t, s) && t@ == body_delimiter(self.boundary()) && s == Sink::Keep,
                Phase::File => w matches Want::Scan(t, s) && t@ == body_delimiter(self.boundary()) && s == Sink::File,
                Phase::Finished => w is Finished,
            },
    {
        match &self.phase {
            Phase::Discarding => Want::Scan(self.boundary.clone(), Sink::Discard),
            Phase::AfterBoundary => Want::Peek,
            Phase::LineRest => Want::Scan(vec![13u8, 10], Sink::Discard),
            Phase::Headers => Want::Scan(vec![13u8, 10, 13, 10], Sink::Keep),
            Phase::Value(_) => Want::Scan(self.body_delimiter(), Sink::Keep),
            Phase::File => Want::Scan(self.body_delimiter(), Sink::File),
            Phase::Finished => Want::Finished,
        }
    }

    fn body_delimiter(&self) -> (r: Vec<u8>)
        ensures
            r@ == body_delimiter(self.boundary@),
    {
        let mut r: Vec<u8> = vec![13u8, 10];
        let mut i: usize = 0;
        while i < self.boundary.len()
            invariant
                i <= self.boundary@.len(),
                r@ == crlf() + self.boundary@.subrange(0, i as int),
            decreases self.boundary@.len() - i,
        {
            r.push(self.boundary[i]);
            i = i + 1;
            assert(r@ =~= crlf() + self.boundary@.subrange(0, i as int));
        }
        assert(self.boundary@.subrange(0, self.boundary@.len() as int) =~= self.boundary@);
        r
    }

    /// Reports whether the next two bytes are `--`. After the closing boundary of a nested
    /// envelope the parser goes back to the outer body and skips to its next boundary; after
    /// the outer body's closing boundary it is finished; otherwise the section's headers follow.
    pub fn peeked(&mut self, closing: bool)
        requires
            old(self).wf(),
            old(self).phase() == Phase::AfterBoundary,
        ensures
            final(self).wf(),
            !closing ==> final(self).phase() == Phase::LineRest && final(self).boundary() == old(self).boundary()
                && final(self).outer() == old(self).outer() && final(self).inherited() == old(self).inherited(),
            closing && old(self).outer() is None ==> final(self).phase() == Phase::Finished,
            closing && old(self).outer() is Some ==> final(self).phase() == Phase::Discarding
                && final(self).boundary() == old(self).outer()->Some_0 && final(self).outer() is None
                && final(self).inherited() is None,
    {
        if !closing {
            self.phase = Phase::LineRest;
        } else {
            match self.outer.take() {
                None => {
                    self.phase = Phase::Finished;
                },
                Some(o) => {
                    self.boundary = o;
                    self.inherited = None;
                    self.phase = Phase::Discarding;
                },
            }
        }
    }

    /// Reports the outcome of the scan that `want` asked for: whether the delimiter was found,
    /// the bytes kept (for a `Keep` scan) and the number of bytes sent to the sink. A delimiter
    /// that is not found is `Eof`. A header block is parsed and read as `section_of` says: a
    /// text field is then read, a file begins, or a nested envelope is entered; a text field
    /// must be UTF-8; a file ends with its size.
    pub fn scanned(&mut self, found: bool, kept: Vec<u8>, count: usize) -> (r: Result<Option<Event>, Error>)
        requires
            old(self).wf(),
            !(old(self).phase() is AfterBoundary),
            !(old(self).phase() is Finished),
        ensures
            final(self).wf(),
            !found ==> r matches Err(Error::Eof),
            found ==> match old(self).phase() {
                Phase::Discarding => r matches Ok(None) && final(self).phase() == Phase::AfterBoundary
                    && final(self).boundary() == old(self).boundary() && final(self).outer() == old(self).outer()
                    && final(self).inherited() == old(self).inherited(),
                Phase::LineRest => r matches Ok(None) && final(self).phase() == Phase::Headers
                    && final(self).boundary() == old(self).boundary() && final(self).outer() == old(self).outer()
                    && final(self).inherited() == old(self).inherited(),
                Phase::Headers => match header_block(kept@ + blank_line()) {
                    Err(m) => r is Err && fails_as(r->Err_0, Failure::Malformed(m)),
                    Ok(None) => r matches Err(Error::PartialHeaders),
                    Ok(Some(hv)) => match section_of(hv, old(self).inherited() is None, inherited_name(old(self).inherited())) {
                        Err(f) => r is Err && fails_as(r->Err_0, f),
                        Ok(SectionView::Value(n)) => r matches Ok(None)
                            && final(self).phase() matches Phase::Value(m) && m@ == n
                            && final(self).boundary() == old(self).boundary() && final(self).outer() == old(self).outer()
                            && final(self).inherited() == old(self).inherited(),
                        Ok(SectionView::File(n, fname, t)) => r matches Ok(Some(Event::FileStart(m, g, u)))
                            && m@ == n && string_opt(g) == fname && media_view(u) == t
                            && final(self).phase() == Phase::File
                            && final(self).boundary() == old(self).boundary() && final(self).outer() == old(self).outer()
                            && final(self).inherited() == old(self).inherited(),
                        Ok(SectionView::Mixed(n, nb)) => r matches Ok(None) && final(self).phase() == Phase::Discarding
                            && final(self).boundary() == nb && final(self).outer() == Some(old(self).boundary())
                            && final(self).inherited() == Some(n),
                    },
                },
                Phase::Value(n) => if valid_utf8(kept@) {
                    r matches Ok(Some(Event::Field(m, x))) && m@ == n@ && x@ == decode_utf8(kept@)
                        && final(self).phase() == Phase::AfterBoundary
                        && final(self).boundary() == old(self).boundary() && final(self).outer() == old(self).outer()
                        && final(self).inherited() == old(self).inherited()
                } else {
                    r matches Err(Error::Utf8)
                },
                Phase::File => r matches Ok(Some(Event::FileEnd(c))) && c == count
                    && final(self).phase() == Phase::AfterBoundary
                    && final(self).boundary() == old(self).boundary() && final(self).outer() == old(self).outer()
                    && final(self).inherited() == old(self).inherited(),
                _ => true,
            },
    {
        if !found {
            return Err(Error::Eof);
        }
        let value_name: Option<String> = match &self.phase {
            Phase::Value(n) => Some(n.clone()),
            _ => None,
        };
        match &self.phase {
            Phase::Discarding => {
                self.phase = Phase::AfterBoundary;
                Ok(None)
            },
            Phase::LineRest => {
                self.phase = Phase::Headers;
                Ok(None)
            },
            Phase::Headers => self.read_headers(kept),
            Phase::Value(_) => {
                let name = value_name.unwrap();
                match string_from_utf8(kept) {
                    Some(text) => {
                        self.phase = Phase::AfterBoundary;
                        Ok(Some(Event::Field(name, text)))
                    },
                    None => Err(Error::Utf8),
                }
            },
            Phase::File => {
                self.phase = Phase::AfterBoundary;
                Ok(Some(Event::FileEnd(count)))
            },
            _ => Ok(None),
        }
    }

    fn read_headers(&mut self, kept: Vec<u8>) -> (r: Result<Option<Event>, Error>)
        requires
            old(self).wf(),
        ensures
            final(self).wf(),
            match header_block(kept@ + blank_line()) {
                Err(m) => r is Err && fails_as(r->Err_0, Failure::Malformed(m)),
                Ok(None) => r matches Err(Error::PartialHeaders),
                Ok(Some(hv)) => match section_of(hv, old(self).inherited() is None, inherited_name(old(self).inherited())) {
                    Err(f) => r is Err && fails_as(r->Err_0, f),
                    Ok(SectionView::Value(n)) => r matches Ok(None)
                        && final(self).phase() matches Phase::Value(m) && m@ == n
                        && final(self).boundary() == old(self).boundary() && final(self).outer() == old(self).outer()
                        && final(self).inherited() == old(self).inherited(),
                    Ok(SectionView::File(n, fname, t)) => r matches Ok(Some(Event::FileStart(m, g, u)))
                        && m@ == n && string_opt(g) == fname && media_view(u) == t
                        && final(self).phase() == Phase::File
                        && final(self).boundary() == old(self).boundary() && final(self).outer() == old(self).outer()
                        && final(self).inherited() == old(self).inherited(),
                    Ok(SectionView::Mixed(n, nb)) => r matches Ok(None) && final(self).phase() == Phase::Discarding
                        && final(self).boundary() == nb && final(self).outer() == Some(old(self).boundary())
                        && final(self).inherited() == Some(n),
                },
            },
    {
        let mut block = kept;
        block.push(13);
        block.push(10);
        block.push(13);
        block.push(10);
        assert(block@ =~= kept@ + blank_line());
        let headers = match parse_header_block(block.as_slice()) {
            Ok(Some(h)) => h,
            Ok(None) => return Err(Error::PartialHeaders),
            Err(m) => return Err(Error::Httparse(m)),
        };
        assert(inherited_name(string_opt(self.inherited)) == match self.inherited {
            Some(n) => n@,
            None => Seq::<char>::empty(),
        });
        match read_section(&headers, &self.inherited) {
            Err(e) => Err(e),
            Ok(Section::Value { name }) => {
                self.phase = Phase::Value(name);
                Ok(None)
            },
            Ok(Section::File { name, filename, content_type }) => {
                self.phase = Phase::File;
                Ok(Some(Event::FileStart(name, filename, content_type)))
            },
            Ok(Section::Mixed { name, boundary }) => {
                assert(boundary@.len() >= 2);
                let outer = self.boundary.clone();
                self.boundary = boundary;
                self.outer = Some(outer);
                self.inherited = Some(name);
                self.phase = Phase::Discarding;
                Ok(None)
            },
        }
    }
}


/// Where a walk stands in its phase: skipping to a boundary at `cur`, just after one at `cur`,
/// or inside the section that starts at `sec`.
pub open spec fn phase_walk(p: Phase, cur: Seq<u8>, sec: Seq<u8>, b: Seq<u8>, inherited: Option<Seq<char>>) -> Walk {
    match p {
        Phase::Discarding => walk_from(cur, b, inherited),
        Phase::AfterBoundary => sections_from(cur, b, inherited),
        _ => sections_from(sec, b, inherited),
    }
}

/// How the outer walk goes on after a nested envelope whose body starts at `s2` and whose walk
/// came to `w`.
pub open spec fn after_envelope(w: Walk, s2: Seq<u8>, b: Seq<u8>) -> Walk {
    match w {
        Err(f) => Err(f),
        Ok(t) => if !scan_found(t.2, b) {
            Err(Failure::Fail(Error::Eof))
        } else if t.2.len() > s2.len() {
            Err(Failure::Fail(Error::Eof))
        } else {
            prepend(t.0, t.1, sections_from(skip(t.2, b), b, None))
        },
    }
}

/// What is known of the position `cur` inside the section that starts at `sec`, by phase.
pub open spec fn phase_position(p: Phase, cur: Seq<u8>, sec: Seq<u8>, inherited: Option<Seq<char>>) -> bool {
    match p {
        Phase::LineRest => cur == sec && !closes(sec),
        Phase::Headers => !closes(sec) && scan_found(sec, crlf()) && cur == skip(sec, crlf()),
        Phase::Value(n) => has_header_block(sec) && cur == after_headers(sec) && match header_block(header_bytes(sec)) {
            Ok(Some(hv)) => section_of(hv, inherited is None, inherited_name(inherited)) == Ok::<_, Failure>(SectionView::Value(n@)),
            _ => false,
        },
        _ => true,
    }
}

/// What is known in the phase `File` of the file's section.
pub open spec fn file_position(cur: Seq<u8>, sec: Seq<u8>, inherited: Option<Seq<char>>, meta: (Seq<char>, Option<Seq<char>>, (Seq<char>, Seq<char>, Seq<(Seq<char>, Seq<char>)>))) -> bool {
    has_header_block(sec) && cur == after_headers(sec) && match header_block(header_bytes(sec)) {
        Ok(Some(hv)) => section_of(hv, inherited is None, inherited_name(inherited)) == Ok::<_, Failure>(SectionView::File(meta.0, meta.1, meta.2)),
        _ => false,
    }
}

/// The rank of a phase, for termination: a look ahead consumes nothing.
pub open spec fn phase_rank(p: Phase) -> int {
    match p {
        Phase::AfterBoundary => 1,
        _ => 0,
    }
}


/// Runs the scan that the parser wants over the reader and reports it; returns the bytes that
/// came before the delimiter.
fn run_scan(reader: &mut ChunkReader, parser: &mut FormParser) -> (r: (Result<Option<Event>, Error>, Vec<u8>, Ghost<bool>, Ghost<Seq<u8>>))
    requires
        old(reader).wf(),
        old(parser).wf(),
        !(old(parser).phase() is AfterBoundary),
        !(old(parser).phase() is Finished),
    ensures
        final(reader).wf(),
        final(parser).wf(),
        final(reader).rest().len() <= old(reader).rest().len(),
        ({
            let t = match old(parser).phase() {
                Phase::Discarding => old(parser).boundary(),
                Phase::LineRest => crlf(),
                Phase::Headers => blank_line(),
                _ => body_delimiter(old(parser).boundary()),
            };
            &&& r.2@ == scan_found(old(reader).rest(), t)
            &&& r.3@ == scan_sink(old(reader).rest(), t)
            &&& final(reader).rest() == skip(old(reader).rest(), t)
            &&& r.2@ ==> final(reader).rest().len() < old(reader).rest().len()
        }),
        !r.2@ ==> r.0 matches Err(Error::Eof),
        r.2@ ==> match old(parser).phase() {
            Phase::Discarding => r.0 matches Ok(None) && final(parser).phase() == Phase::AfterBoundary
                && final(parser).boundary() == old(parser).boundary() && final(parser).outer() == old(parser).outer()
                && final(parser).inherited() == old(parser).inherited(),
            Phase::LineRest => r.0 matches Ok(None) && final(parser).phase() == Phase::Headers
                && final(parser).boundary() == old(parser).boundary() && final(parser).outer() == old(parser).outer()
                && final(parser).inherited() == old(parser).inherited(),
            Phase::Headers => match header_block(r.3@ + blank_line()) {
                Err(m) => r.0 is Err && fails_as(r.0->Err_0, Failure::Malformed(m)),
                Ok(None) => r.0 matches Err(Error::PartialHeaders),
                Ok(Some(hv)) => match section_of(hv, old(parser).inherited() is None, inherited_name(old(parser).inherited())) {
                    Err(f) => r.0 is Err && fails_as(r.0->Err_0, f),
                    Ok(SectionView::Value(n)) => r.0 matches Ok(None)
                        && final(parser).phase() matches Phase::Value(m) && m@ == n
                        && final(parser).boundary() == old(parser).boundary() && final(parser).outer() == old(parser).outer()
                        && final(parser).inherited() == old(parser).inherited(),
                    Ok(SectionView::File(n, fname, t)) => r.0 matches Ok(Some(Event::FileStart(m, g, u)))
                        && m@ == n && string_opt(g) == fname && media_view(u) == t
                        && final(parser).phase() == Phase::File
                        && final(parser).boundary() == old(parser).boundary() && final(parser).outer() == old(parser).outer()
                        && final(parser).inherited() == old(parser).inherited(),
                    Ok(SectionView::Mixed(n, nb)) => r.0 matches Ok(None) && final(parser).phase() == Phase::Discarding
                        && final(parser).boundary() == nb && final(parser).outer() == Some(old(parser).boundary())
                        && final(parser).inherited() == Some(n),
                },
            },
            Phase::Value(n) => if valid_utf8(r.3@) {
                r.0 matches Ok(Some(Event::Field(m, x))) && m@ == n@ && x@ == decode_utf8(r.3@)
                    && final(parser).phase() == Phase::AfterBoundary
                    && final(parser).boundary() == old(parser).boundary() && final(parser).outer() == old(parser).outer()
                    && final(parser).inherited() == old(parser).inherited()
            } else {
                r.0 matches Err(Error::Utf8)
            },
            Phase::File => r.0 matches Ok(Some(Event::FileEnd(c))) && c == r.3@.len() && r.1@ == r.3@
                && final(parser).phase() == Phase::AfterBoundary
                && final(parser).boundary() == old(parser).boundary() && final(parser).outer() == old(parser).outer()
                && final(parser).inherited() == old(parser).inherited(),
            _ => true,
        },
{
    let token = match parser.want() {
        Want::Scan(t, _) => t,
        _ => vec![13u8, 10],
    };
    let mut kept: Vec<u8> = Vec::new();
    proof {
        lemma_scan_bounds(reader.rest(), token@);
    }
    let (_, found) = reader.scan_by_steps(token.as_slice(), &mut kept);
    let ghost bytes = kept@;
    let size = kept.len();
    let mut contents: Vec<u8> = Vec::new();
    let mut handed: Vec<u8> = Vec::new();
    if parser.phase_number() == 5 {
        contents = kept;
    } else {
        handed = kept;
    }
    let outcome = parser.scanned(found, handed, size);
    (outcome, contents, Ghost(found), Ghost(bytes))
}

/// One scan of the walk driven by steps: runs it, reports it to the parser and files the
/// field or file that it completes; the walk where the parser stood is the walk where it now
/// stands, after what was filed, or the error the scan ended in.
#[verifier::spinoff_prover]
#[verifier::rlimit(100)]
fn scan_step(
    reader: &mut ChunkReader,
    parser: &mut FormParser,
    form: &mut FormData,
    meta: &mut Option<(String, Option<String>, MediaType)>,
    sec: Ghost<Seq<u8>>,
) -> (r: (Result<(), Error>, Ghost<Seq<FieldView>>, Ghost<Seq<FileView>>))
    requires
        old(reader).wf(),
        old(parser).wf(),
        !(old(parser).phase() is AfterBoundary),
        !(old(parser).phase() is Finished),
        phase_position(old(parser).phase(), old(reader).rest(), sec@, old(parser).inherited()),
        old(parser).phase() is File ==> (*old(meta)) is Some && file_position(old(reader).rest(), sec@, old(parser).inherited(), (
            (*old(meta))->Some_0.0@,
            string_opt((*old(meta))->Some_0.1),
            media_view((*old(meta))->Some_0.2),
        )),
    ensures
        final(reader).wf(),
        final(parser).wf(),
        final(reader).rest().len() < old(reader).rest().len() || r.0 is Err,
        r.0 is Err ==> {
            let w = phase_walk(old(parser).phase(), old(reader).rest(), sec@, old(parser).boundary(), old(parser).inherited());
            w is Err && fails_as(r.0->Err_0, w->Err_0)
        },
        r.0 is Ok && old(parser).inherited() is None && final(parser).outer() is Some ==> {
            &&& final(parser).phase() == Phase::Discarding
            &&& final(parser).outer() == Some(old(parser).boundary())
            &&& final(parser).inherited() is Some
            &&& final(parser).boundary().len() > 0
            &&& final(reader).rest() == after_headers(sec@)
            &&& phase_walk(old(parser).phase(), old(reader).rest(), sec@, old(parser).boundary(), old(parser).inherited())
                == after_envelope(
                walk_from(final(reader).rest(), final(parser).boundary(), final(parser).inherited()),
                after_headers(sec@),
                old(parser).boundary(),
            )
            &&& old(parser).phase() is Headers
            &&& fields_view(final(form).fields@) == fields_view(old(form).fields@)
            &&& files_view(final(form).files@) == files_view(old(form).files@)
        },
        r.0 is Ok && !(old(parser).inherited() is None && final(parser).outer() is Some) ==> {
            &&& final(parser).outer() == old(parser).outer()
            &&& final(parser).boundary() == old(parser).boundary()
            &&& final(parser).inherited() == old(parser).inherited()
            &&& !(final(parser).phase() is Finished)
            &&& phase_position(final(parser).phase(), final(reader).rest(), sec@, final(parser).inherited())
            &&& final(parser).phase() is File ==> (*final(meta)) is Some && file_position(final(reader).rest(), sec@, final(parser).inherited(), (
                (*final(meta))->Some_0.0@,
                string_opt((*final(meta))->Some_0.1),
                media_view((*final(meta))->Some_0.2),
            ))
            &&& phase_walk(old(parser).phase(), old(reader).rest(), sec@, old(parser).boundary(), old(parser).inherited())
                == prepend(r.1@, r.2@, phase_walk(final(parser).phase(), final(reader).rest(), sec@, final(parser).boundary(), final(parser).inherited()))
            &&& fields_view(final(form).fields@) == fields_view(old(form).fields@) + r.1@
            &&& files_view(final(form).files@) == files_view(old(form).files@) + r.2@
        },
{
    let ghost sec = sec@;
    let ghost cur = reader.rest();
    let ghost inh = parser.inherited();
    let ghost b = parser.boundary();
    let ghost ph = parser.phase();
    let (outcome, contents, Ghost(found), Ghost(bytes)) = run_scan(reader, parser);
    proof {
        match ph {
            Phase::Discarding => {
                lemma_walk_step(cur, b, inh);
            },
            Phase::LineRest => {
                if !found {
                    lemma_section_cut(sec, b, inh);
                }
            },
            Phase::Headers => {
                if !found {
                    lemma_section_cut(sec, b, inh);
                } else {
                    lemma_section_step(sec, b, inh);
                    assert(header_bytes(sec) == bytes + blank_line());
                }
            },
            _ => {
                lemma_section_step(sec, b, inh);
            },
        }
    }
    let ev = match outcome {
        Err(e) => {
            return (Err(e), Ghost(Seq::empty()), Ghost(Seq::empty()));
        },
        Ok(ev) => ev,
    };
    let ghost df: Seq<FieldView> = Seq::empty();
    let ghost dl: Seq<FileView> = Seq::empty();
    match ev {
        None => {},
        Some(Event::Field(n, t)) => {
            proof {
                df = seq![(n@, t@)];
            }
            let ghost prev = form.fields@;
            form.fields.push((n, t));
            proof {
                assert(fields_view(form.fields@) =~= fields_view(prev) + df);
            }
        },
        Some(Event::FileStart(n, f, m)) => {
            *meta = Some((n, f, m));
        },
        Some(Event::FileEnd(c)) => {
            let old_meta = meta.take();
            match old_meta {
                Some((n, f, m)) => {
                    proof {
                        dl = seq![(n@, (string_opt(f), media_view(m), c as int, contents@))];
                    }
                    let ghost prev = form.files@;
                    form.files.push((n, UploadedFile { filename: f, content_type: m, size: c, contents }));
                    proof {
                        assert(files_view(form.files@) =~= files_view(prev) + dl);
                    }
                },
                None => {},
            }
        },
    }
    proof {
        if !(inh is None && parser.outer() is Some) {
            let w_new = phase_walk(parser.phase(), reader.rest(), sec, parser.boundary(), parser.inherited());
            assert(phase_walk(ph, cur, sec, b, inh) == prepend(df, dl, w_new));
        }
    }
    (Ok(()), Ghost(df), Ghost(dl))
}

/// Decodes a `multipart/form-data` body by driving a `FormParser` with `Scanner`s fed chunk by
/// chunk, as a stream driver does; the outcome is exactly that of `read_formdata`.
#[verifier::spinoff_prover]
#[verifier::rlimit(100)]
pub fn read_formdata_by_steps(reader: &mut ChunkReader, content_type: Option<&str>) -> (r: Result<FormData, Error>)
    requires
        old(reader).wf(),
    ensures
        final(reader).wf(),
        match request_boundary(
            match content_type {
                Some(c) => Some(c@),
                None => None,
            },
        ) {
            Err(e) => match r {
                Ok(_) => false,
                Err(e2) => e2 == e,
            },
            Ok(b) => match walk_from(old(reader).rest(), b, None) {
                Ok(t) => match r {
                    Ok(fd) => fields_view(fd.fields@) == t.0 && files_view(fd.files@) == t.1,
                    Err(_) => false,
                },
                Err(f) => match r {
                    Ok(_) => false,
                    Err(e) => fails_as(e, f),
                },
            },
        },
{
    let mut parser = match FormParser::new(content_type) {
        Ok(p) => p,
        Err(e) => return Err(e),
    };
    let ghost b0 = parser.boundary();
    let ghost r0 = reader.rest();
    let ghost g = walk_from(r0, b0, None);
    let mut form = FormData::new();
    let mut meta: Option<(String, Option<String>, MediaType)> = None;
    let ghost mut sec: Seq<u8> = r0;
    let ghost mut outer_sec: Seq<u8> = r0;
    let ghost mut f_top: Seq<FieldView> = Seq::empty();
    let ghost mut l_top: Seq<FileView> = Seq::empty();
    let ghost mut f_in: Seq<FieldView> = Seq::empty();
    let ghost mut l_in: Seq<FileView> = Seq::empty();
    proof {
        assert(fields_view(form.fields@) =~= f_top + f_in);
        assert(files_view(form.files@) =~= l_top + l_in);
        match g {
            Ok(t) => {
                assert(f_top + t.0 =~= t.0);
                assert(l_top + t.1 =~= t.1);
            },
            Err(_) => {},
        }
    }
    loop
        invariant
            reader.wf(),
            parser.wf(),
            r0 == old(reader).rest(),
            g == walk_from(r0, b0, None),
            request_boundary(
                match content_type {
                    Some(c) => Some(c@),
                    None => None,
                },
            ) == Ok::<Seq<u8>, Error>(b0),
            b0.len() > 0,
            !(parser.phase() is Finished),
            fields_view(form.fields@) == f_top + f_in,
            files_view(form.files@) == l_top + l_in,
            phase_position(parser.phase(), reader.rest(), sec, parser.inherited()),
            parser.phase() is File ==> meta is Some && file_position(reader.rest(), sec, parser.inherited(), (
                meta->Some_0.0@,
                string_opt(meta->Some_0.1),
                media_view(meta->Some_0.2),
            )),
            parser.outer() is None ==> {
                &&& f_in.len() == 0
                &&& l_in.len() == 0
                &&& parser.boundary() == b0
                &&& parser.inherited() is None
                &&& g == prepend(f_top, l_top, phase_walk(parser.phase(), reader.rest(), sec, b0, None))
            },
            parser.outer() is Some ==> {
                &&& parser.outer() == Some(b0)
                &&& parser.inherited() is Some
                &&& parser.boundary().len() > 0
                &&& g == prepend(f_top, l_top, sections_from(outer_sec, b0, None))
                &&& sections_from(outer_sec, b0, None) == after_envelope(
                    walk_from(after_headers(outer_sec), parser.boundary(), parser.inherited()),
                    after_headers(outer_sec),
                    b0,
                )
                &&& walk_from(after_headers(outer_sec), parser.boundary(), parser.inherited()) == prepend(
                    f_in,
                    l_in,
                    phase_walk(parser.phase(), reader.rest(), sec, parser.boundary(), parser.inherited()),
                )
                &&& reader.rest().len() <= after_headers(outer_sec).len()
            },
        decreases reader.rest().len(), phase_rank(parser.phase()),
    {
        let ghost cur = reader.rest();
        let ghost inh = parser.inherited();
        let ghost b = parser.boundary();
        let ghost ph = parser.phase();
        let want = parser.want();
        match want {
            Want::Finished => {
                return Ok(form);
            },
            Want::Peek => {
                let dashes: Vec<u8> = vec![45u8, 45];
                let closing = reader.starts_with(dashes.as_slice());
                assert(closing == closes(cur)) by {
                    assert(dashes@ =~= seq![45u8, 45]);
                }
                proof {
                    if closing {
                        lemma_sections_closed(cur, b, inh);
                    }
                }
                let nested = parser.is_nested();
                parser.peeked(closing);
                if closing && !nested {
                    proof {
                        assert(f_top + Seq::<FieldView>::empty() =~= f_top);
                        assert(l_top + Seq::<FileView>::empty() =~= l_top);
                    }
                    return Ok(form);
                }
                proof {
                    if closing {
                        lemma_walk_step(cur, b0, None);
                        assert(f_in + Seq::<FieldView>::empty() =~= f_in);
                        assert(l_in + Seq::<FileView>::empty() =~= l_in);
                        assert(walk_from(after_headers(outer_sec), b, inh) == Ok::<_, Failure>((f_in, l_in, cur)));
                        assert(sections_from(outer_sec, b0, None) == prepend(f_in, l_in, walk_from(cur, b0, None)));
                        lemma_prepend_twice(f_top, l_top, f_in, l_in, walk_from(cur, b0, None));
                        f_top = f_top + f_in;
                        l_top = l_top + l_in;
                        f_in = Seq::empty();
                        l_in = Seq::empty();
                        assert(f_top + f_in =~= f_top);
                        assert(l_top + l_in =~= l_top);
                    } else {
                        sec = cur;
                    }
                }
            },
            Want::Scan(_, _) => {
                let (res, Ghost(df), Ghost(dl)) = scan_step(reader, &mut parser, &mut form, &mut meta, Ghost(sec));
                match res {
                    Err(e) => {
                        proof {
                            let w = phase_walk(ph, cur, sec, b, inh);
                            if inh is Some {
                                assert(walk_from(after_headers(outer_sec), b, inh) == w);
                                assert(sections_from(outer_sec, b0, None) == w);
                            }
                            assert(g == w);
                        }
                        return Err(e);
                    },
                    Ok(()) => {},
                }
                proof {
                    if inh is None && parser.outer() is Some {
                        outer_sec = sec;
                        let w_new = walk_from(reader.rest(), parser.boundary(), parser.inherited());
                        match w_new {
                            Ok(t) => {
                                assert(f_in + t.0 =~= t.0);
                                assert(l_in + t.1 =~= t.1);
                            },
                            Err(_) => {},
                        }
                    } else {
                        let w_new = phase_walk(parser.phase(), reader.rest(), sec, parser.boundary(), parser.inherited());
                        if inh is None {
                            lemma_prepend_twice(f_top, l_top, df, dl, w_new);
                            f_top = f_top + df;
                            l_top = l_top + dl;
                        } else {
                            lemma_prepend_twice(f_in, l_in, df, dl, w_new);
                            f_in = f_in + df;
                            l_in = l_in + dl;
                        }
                    }
                }
            },
        }
    }
}

} // verus!
