use formdata::multipart::{form_boundary, read_section, section_kind, SectionKind, Section};
use formdata::{read_formdata, ChunkReader, Error, FormData, MediaType, UploadedFile};

fn parse(content_type: &str, body: &[u8]) -> Result<FormData, Error> {
    let mut reader = ChunkReader::new(body.to_vec());
    read_formdata(&mut reader, Some(content_type))
}

fn is_text_plain(m: &MediaType) -> bool {
    m.top == "text"
        && m.sub == "plain"
        && m.params == vec![("charset".to_string(), "utf-8".to_string())]
}

const THREE_PARTS: &[u8] = b"--abcdefg\r\n\
Content-Disposition: form-data; name=\"field1\"\r\n\
\r\n\
data1\r\n\
--abcdefg\r\n\
Content-Disposition: form-data; name=\"field2\"; filename=\"image.gif\"\r\n\
Content-Type: image/gif\r\n\
\r\n\
This is a file\r\n\
with two lines\r\n\
--abcdefg\r\n\
Content-Disposition: form-data; name=\"field3\"; filename=\"file.txt\"\r\n\
\r\n\
This is a file\r\n\
--abcdefg--";

#[test]
fn parser() {
    match parse("multipart/form-data; boundary=\"abcdefg\"", THREE_PARTS) {
        Ok(form_data) => {
            assert_eq!(form_data.fields.len(), 1);
            for (key, val) in form_data.fields {
                if &key == "field1" {
                    assert_eq!(&val, "data1");
                }
            }

            assert_eq!(form_data.files.len(), 2);
            for (key, file) in form_data.files {
                if &key == "field2" {
                    assert_eq!(file.size, 30);
                    assert_eq!(file.filename.as_deref(), Some("image.gif"));
                    assert_eq!(file.content_type.top, "image");
                    assert_eq!(file.content_type.sub, "gif");
                } else if &key == "field3" {
                    assert_eq!(file.size, 14);
                    assert_eq!(file.filename.as_deref(), Some("file.txt"));
                    assert!(is_text_plain(&file.content_type));
                }
            }
        }
        Err(err) => panic!("{}", err.description()),
    }
}

#[test]
fn multi_file_parser() {
    let input = b"--abcdefg\r\n\
Content-Disposition: form-data; name=\"field1\"\r\n\
\r\n\
data1\r\n\
--abcdefg\r\n\
Content-Disposition: form-data; name=\"field2\"; filename=\"image.gif\"\r\n\
Content-Type: image/gif\r\n\
\r\n\
This is a file\r\n\
with two lines\r\n\
--abcdefg\r\n\
Content-Disposition: form-data; name=\"field2\"; filename=\"file.txt\"\r\n\
\r\n\
This is a file\r\n\
--abcdefg--";
    match parse("multipart/form-data; boundary=\"abcdefg\"", input) {
        Ok(form_data) => {
            assert_eq!(form_data.fields.len(), 1);
            for (key, val) in form_data.fields {
                if &key == "field1" {
                    assert_eq!(&val, "data1");
                }
            }

            assert_eq!(form_data.files.len(), 2);
            let (ref key, ref file) = form_data.files[0];
            assert_eq!(key, "field2");
            assert_eq!(file.size, 30);
            assert_eq!(file.filename.as_deref(), Some("image.gif"));
            assert_eq!(file.content_type.top, "image");
            assert_eq!(file.content_type.sub, "gif");

            let (ref key, ref file) = form_data.files[1];
            assert!(key == "field2");
            assert_eq!(file.size, 14);
            assert_eq!(file.filename.as_deref(), Some("file.txt"));
            assert!(is_text_plain(&file.content_type));
        }
        Err(err) => panic!("{}", err.description()),
    }
}

const MIXED: &[u8] = b"--AaB03x\r\n\
Content-Disposition: form-data; name=\"submit-name\"\r\n\
\r\n\
Larry\r\n\
--AaB03x\r\n\
Content-Disposition: form-data; name=\"files\"\r\n\
Content-Type: multipart/mixed; boundary=BbC04y\r\n\
\r\n\
--BbC04y\r\n\
Content-Disposition: file; filename=\"file1.txt\"\r\n\
\r\n\
... contents of file1.txt ...\r\n\
--BbC04y\r\n\
Content-Disposition: file; filename=\"awesome_image.gif\"\r\n\
Content-Type: image/gif\r\n\
Content-Transfer-Encoding: binary\r\n\
\r\n\
... contents of awesome_image.gif ...\r\n\
--BbC04y--\r\n\
--AaB03x--";

#[test]
fn mixed_parser() {
    match parse("multipart/form-data; boundary=AaB03x", MIXED) {
        Ok(form_data) => {
            assert_eq!(form_data.fields.len(), 1);
            for (key, val) in form_data.fields {
                if &key == "submit-name" {
                    assert_eq!(&val, "Larry");
                }
            }

            assert_eq!(form_data.files.len(), 2);
            for (key, file) in form_data.files {
                assert_eq!(&key, "files");
                match file.filename.as_deref().unwrap() {
                    "file1.txt" => {
                        assert_eq!(file.size, 29);
                        assert!(is_text_plain(&file.content_type));
                    }
                    "awesome_image.gif" => {
                        assert_eq!(file.size, 37);
                        assert_eq!(file.content_type.top, "image");
                        assert_eq!(file.content_type.sub, "gif");
                    }
                    _ => unreachable!(),
                }
            }
        }
        Err(err) => panic!("{}", err.description()),
    }
}

#[test]
fn parse_result_does_not_depend_on_chunk_size() {
    let whole = parse("multipart/form-data; boundary=AaB03x", MIXED).unwrap();
    for cap in 1..40 {
        let mut reader = ChunkReader::with_capacity(cap, MIXED.to_vec());
        let form = read_formdata(&mut reader, Some("multipart/form-data; boundary=AaB03x")).unwrap();
        assert_eq!(form, whole);
    }
}

#[test]
fn file_contents_are_kept() {
    let form = parse("multipart/form-data; boundary=\"abcdefg\"", THREE_PARTS).unwrap();
    assert_eq!(form.files[0].1.contents, b"This is a file\r\nwith two lines".to_vec());
    assert_eq!(form.files[1].1.contents, b"This is a file".to_vec());
}

#[test]
fn missing_disposition_is_an_error() {
    let input = b"--xyz\r\nContent-Type: text/plain\r\n\r\nabc\r\n--xyz--";
    assert!(matches!(parse("multipart/form-data; boundary=xyz", input), Err(Error::MissingDisposition)));
    let nested = b"--xyz\r\n\
Content-Disposition: form-data; name=\"files\"\r\n\
Content-Type: multipart/mixed; boundary=inner\r\n\
\r\n\
--inner\r\n\
Content-Type: text/plain\r\n\
\r\n\
abc\r\n\
--inner--\r\n\
--xyz--";
    assert!(matches!(parse("multipart/form-data; boundary=xyz", nested), Err(Error::MissingDisposition)));
}

#[test]
fn missing_name_is_an_error() {
    let field = b"--xyz\r\nContent-Disposition: form-data\r\n\r\nabc\r\n--xyz--";
    assert!(matches!(parse("multipart/form-data; boundary=xyz", field), Err(Error::NoName)));
    let file = b"--xyz\r\nContent-Disposition: form-data; filename=\"a.txt\"\r\n\r\nabc\r\n--xyz--";
    assert!(matches!(parse("multipart/form-data; boundary=xyz", file), Err(Error::NoName)));
}

#[test]
fn truncated_body_is_eof() {
    let input = b"--xyz\r\nContent-Disposition: form-data; name=\"a\"\r\n\r\nabc\r\n--xyz\r\n\
Content-Disposition: form-data; name=\"b\"\r\n\r\ndef\r\n";
    assert!(matches!(parse("multipart/form-data; boundary=xyz", input), Err(Error::Eof)));
    assert!(matches!(parse("multipart/form-data; boundary=xyz", b""), Err(Error::Eof)));
    assert!(matches!(parse("multipart/form-data; boundary=xyz", b"--xyz\r\nContent-Disp"), Err(Error::Eof)));
}

#[test]
fn preamble_is_skipped_and_empty_form_parses() {
    let form = parse("multipart/form-data; boundary=xyz", b"preamble text\r\n--xyz--").unwrap();
    assert_eq!(form, FormData::new());
}

#[test]
fn duplicate_field_names_are_kept_in_order() {
    let input = b"--xyz\r\nContent-Disposition: form-data; name=\"a\"\r\n\r\n1\r\n--xyz\r\n\
Content-Disposition: form-data; name=\"a\"\r\n\r\n2\r\n--xyz--";
    let form = parse("multipart/form-data; boundary=xyz", input).unwrap();
    assert_eq!(form.fields, vec![("a".to_string(), "1".to_string()), ("a".to_string(), "2".to_string())]);
}

#[test]
fn invalid_disposition_is_an_error() {
    let input = b"--xyz\r\nContent-Disposition: attachment; name=\"a\"\r\n\r\n1\r\n--xyz--";
    assert!(matches!(parse("multipart/form-data; boundary=xyz", input), Err(Error::InvalidDisposition)));
}

#[test]
fn nested_envelope_needs_a_boundary() {
    let input = b"--xyz\r\nContent-Disposition: form-data; name=\"f\"\r\nContent-Type: multipart/mixed\r\n\r\n1\r\n--xyz--";
    assert!(matches!(parse("multipart/form-data; boundary=xyz", input), Err(Error::BoundaryNotSpecified)));
}

#[test]
fn invalid_utf8_field_is_an_error() {
    let input = b"--xyz\r\nContent-Disposition: form-data; name=\"a\"\r\n\r\n\xff\xfe\r\n--xyz--";
    assert!(matches!(parse("multipart/form-data; boundary=xyz", input), Err(Error::Utf8)));
}

#[test]
fn partial_and_malformed_headers_are_errors() {
    let malformed = b"--xyz\r\nContent Disposition: form-data\r\n\r\n1\r\n--xyz--";
    assert!(matches!(parse("multipart/form-data; boundary=xyz", malformed), Err(Error::Httparse(_))));
}

#[test]
fn request_content_type_is_checked_first() {
    assert!(matches!(form_boundary(None), Err(Error::NoRequestContentType)));
    assert!(matches!(form_boundary(Some("text/plain")), Err(Error::NotMultipart)));
    assert!(matches!(form_boundary(Some("multipart/mixed; boundary=a")), Err(Error::NotFormData)));
    assert!(matches!(form_boundary(Some("multipart/form-data")), Err(Error::BoundaryNotSpecified)));
    assert_eq!(form_boundary(Some("multipart/form-data; boundary=abc")).unwrap(), b"--abc".to_vec());
    let mut reader = ChunkReader::new(b"--abc--".to_vec());
    assert!(matches!(read_formdata(&mut reader, Some("text/html")), Err(Error::NotMultipart)));
}

#[test]
fn sections_are_classified_by_mode() {
    let gif = Some(MediaType { top: "image".to_string(), sub: "gif".to_string(), params: vec![] });
    let mixed = Some(MediaType { top: "multipart".to_string(), sub: "mixed".to_string(), params: vec![] });
    let fd = "form-data".to_string();
    assert_eq!(section_kind(true, &fd, &None, false), Some(SectionKind::Value));
    assert_eq!(section_kind(true, &fd, &None, true), Some(SectionKind::File));
    assert_eq!(section_kind(true, &fd, &gif, false), Some(SectionKind::File));
    assert_eq!(section_kind(true, &fd, &mixed, false), Some(SectionKind::Mixed));
    assert_eq!(section_kind(true, &"file".to_string(), &None, true), None);
    assert_eq!(section_kind(false, &"file".to_string(), &None, true), Some(SectionKind::File));
    assert_eq!(section_kind(false, &"attachment".to_string(), &None, false), Some(SectionKind::File));
    assert_eq!(section_kind(false, &fd, &None, false), None);
}

#[test]
fn nested_files_take_the_envelope_name() {
    let headers = vec![("content-disposition".to_string(), b"file; filename=\"x.bin\"".to_vec())];
    match read_section(&headers, &Some("files".to_string())).unwrap() {
        Section::File { name, filename, content_type } => {
            assert_eq!(name, "files");
            assert_eq!(filename.as_deref(), Some("x.bin"));
            assert!(is_text_plain(&content_type));
        }
        _ => panic!("not a file"),
    }
}

#[test]
fn uploaded_file_new_is_empty() {
    let f = UploadedFile::new(MediaType::text_plain());
    assert_eq!(f.size, 0);
    assert!(f.filename.is_none());
    assert!(f.contents.is_empty());
    assert!(is_text_plain(&f.content_type));
}

#[test]
fn error_descriptions() {
    assert_eq!(Error::Eof.description(), "The request body ended prior to reaching the expected terminating boundary");
    assert_eq!(Error::NoName.description(), "A multipart section content-disposition header failed to specify a name");
}

#[test]
fn extended_filename_in_a_section() {
    let input = b"--xyz\r\nContent-Disposition: form-data; name=\"up\"; filename*=UTF-8''na%C3%AFve.txt\r\n\r\nabc\r\n--xyz--";
    let form = parse("multipart/form-data; boundary=xyz", input).unwrap();
    assert_eq!(form.files.len(), 1);
    assert_eq!(form.files[0].0, "up");
    assert_eq!(form.files[0].1.filename.as_deref(), Some("na\u{ef}ve.txt"));
    assert_eq!(form.files[0].1.size, 3);
}

#[test]
fn non_ascii_content_types() {
    assert!(matches!(
        form_boundary(Some("multipart/form-data; boundary=\"a\u{e9}\"")),
        Err(Error::NoRequestContentType)
    ));
    let mut input = b"--xyz\r\nContent-Disposition: form-data; name=\"f\"; filename=\"a.txt\"\r\nContent-Type: text/plain; name=\"a".to_vec();
    input.extend_from_slice("\u{e9}".as_bytes());
    input.extend_from_slice(b"\"\r\n\r\nabc\r\n--xyz--");
    let form = parse("multipart/form-data; boundary=xyz", &input).unwrap();
    assert_eq!(form.files.len(), 1);
    assert!(is_text_plain(&form.files[0].1.content_type));
}

#[test]
fn failed_content_type_check_reads_nothing() {
    let mut reader = ChunkReader::new(b"--abc--".to_vec());
    assert!(matches!(read_formdata(&mut reader, None), Err(Error::NoRequestContentType)));
    assert!(reader.starts_with(b"--abc--"));
}
