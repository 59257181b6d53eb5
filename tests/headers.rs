use formdata::{ContentDisposition, ContentDispositionFormData, Error};

#[test]
fn content_disposition_parse_header() {
    let a = ContentDispositionFormData::parse_header(
        b"form-data; dummy=3; name=upload;\r\n filename=\"sample.png\"",
    )
    .unwrap();
    let b = ContentDispositionFormData {
        name: Some("upload".to_string()),
        filename: Some("sample.png".to_string()),
    };
    assert_eq!(a, b);

    match ContentDispositionFormData::parse_header(b"") {
        Ok(_) => assert!(false, "Empty header was parsed as ok!"),
        Err(Error::Header) => assert!(true),
        Err(_) => assert!(false, "Empty header parsed with wrong error"),
    }
}

#[test]
fn headers_parse_header() {
    let a = ContentDisposition::parse_header(
        b"form-data; dummy=3; name=upload;\r\n filename=\"sample.png\"",
    )
    .unwrap();
    let b = ContentDisposition {
        disposition: String::from("form-data"),
        name: Some("upload".to_string()),
        filename: Some("sample.png".to_string()),
    };
    assert_eq!(a, b);

    assert!(ContentDisposition::parse_header(b"").is_err());
}

#[test]
fn disposition_type_is_lowercased_and_keys_ignore_case() {
    let a = ContentDisposition::parse_header(b"  Attachment ; NAME = \"x y\" ; FileName=a.txt").unwrap();
    assert_eq!(a.disposition, "attachment");
    assert_eq!(a.name.as_deref(), Some("x y"));
    assert_eq!(a.filename.as_deref(), Some("a.txt"));
}

#[test]
fn later_parameters_override_earlier_ones() {
    let a = ContentDisposition::parse_header(b"form-data; name=a; name=b").unwrap();
    assert_eq!(a.name.as_deref(), Some("b"));
    assert_eq!(a.filename, None);
}

#[test]
fn form_data_parser_drops_parameters_with_two_equal_signs() {
    let a = ContentDispositionFormData::parse_header(b"form-data; name=a=b").unwrap();
    assert_eq!(a.name, None);
    let b = ContentDisposition::parse_header(b"form-data; name=a=b").unwrap();
    assert_eq!(b.name.as_deref(), Some("a"));
}

#[test]
fn form_data_parser_rejects_other_types() {
    assert!(matches!(ContentDispositionFormData::parse_header(b"file; name=a"), Err(Error::Header)));
}

#[test]
fn invalid_utf8_anywhere_is_an_error() {
    assert!(matches!(ContentDisposition::parse_header(b"form-data; name=\xff"), Err(Error::Utf8)));
    assert!(matches!(ContentDisposition::parse_header(b"form-data; other=\xff"), Err(Error::Utf8)));
    assert!(matches!(ContentDispositionFormData::parse_header(b"form-data; other=\xff"), Err(Error::Utf8)));
}

#[test]
fn header_names() {
    assert_eq!(ContentDisposition::header_name(), "Content-Disposition");
    assert_eq!(ContentDispositionFormData::header_name(), "Content-Disposition");
}

#[test]
fn extended_filename_is_decoded_from_its_charset() {
    let a = ContentDisposition::parse_header(
        b"form-data; name=f; filename=\"plain.txt\"; filename*=UTF-8''%e2%82%ac%20rates.txt",
    )
    .unwrap();
    assert_eq!(a.filename.as_deref(), Some("\u{20ac} rates.txt"));
    let b = ContentDispositionFormData::parse_header(b"form-data; name=f; filename*=iso-8859-1'en'%A3%20rates").unwrap();
    assert_eq!(b.filename.as_deref(), Some("\u{a3} rates"));
    assert_eq!(b.name.as_deref(), Some("f"));
}

#[test]
fn extended_filename_failures() {
    match ContentDisposition::parse_header(b"form-data; filename*=x-no-such-charset''abc") {
        Err(Error::UnsupportedCharset(name)) => assert_eq!(name, "x-no-such-charset"),
        other => panic!("unexpected {:?}", other),
    }
    assert!(matches!(
        ContentDisposition::parse_header(b"form-data; filename*=Shift_JIS''abc"),
        Err(Error::UnsupportedCharset(_))
    ));
    assert!(matches!(ContentDisposition::parse_header(b"form-data; filename*=abc"), Err(Error::Header)));
    assert!(matches!(ContentDisposition::parse_header(b"form-data; filename*=UTF-8''%ff"), Err(Error::Decoding(_))));
    let raw = ContentDisposition::parse_header("form-data; filename*=UTF-8''\u{e9}".as_bytes()).unwrap();
    assert_eq!(raw.filename.as_deref(), Some("\u{e9}"));
    assert!(matches!(ContentDisposition::parse_header(b"form-data; filename*=us-ascii''%80"), Err(Error::Decoding(_))));
    let latin = ContentDisposition::parse_header(b"form-data; filename*=ISO-8859-1''%80").unwrap();
    assert_eq!(latin.filename.as_deref(), Some("\u{80}"));
}

#[test]
fn extended_filename_escapes_and_big5() {
    let a = ContentDisposition::parse_header(b"form-data; filename*=UTF-8''%zz").unwrap();
    assert_eq!(a.filename.as_deref(), Some("%zz"));
    let b = ContentDisposition::parse_header(b"form-data; filename*=big5''%A4%A4").unwrap();
    assert_eq!(b.filename.as_deref(), Some("\u{4e2d}"));
}

#[test]
fn unicode_whitespace_is_trimmed() {
    let a = ContentDisposition::parse_header("\u{a0}Form-Data\u{3000}; name=\u{2003}x\u{85}; filename= y \u{2029}".as_bytes()).unwrap();
    assert_eq!(a.disposition, "form-data");
    assert_eq!(a.name.as_deref(), Some("x"));
    assert_eq!(a.filename.as_deref(), Some("y"));
}
