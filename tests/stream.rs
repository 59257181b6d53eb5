use formdata::buf::Scanner;
use formdata::stream::{Event, FormParser, Sink, Want};
use formdata::{read_formdata, ChunkReader, Error};

/// Runs the stream parser over `body` cut into chunks of `size` bytes, collecting fields and
/// files (name, filename, content type, bytes).
fn drive(
    content_type: &str,
    body: &[u8],
    size: usize,
) -> Result<(Vec<(String, String)>, Vec<(String, Option<String>, String, Vec<u8>, usize)>), Error> {
    let mut parser = FormParser::new(Some(content_type))?;
    let mut pos = 0usize;
    let mut fields = Vec::new();
    let mut files = Vec::new();
    let mut open: Option<(String, Option<String>, String, Vec<u8>)> = None;
    loop {
        let (token, sink) = match parser.want() {
            Want::Finished => return Ok((fields, files)),
            Want::Peek => {
                parser.peeked(body[pos..].starts_with(b"--"));
                continue;
            }
            Want::Scan(t, s) => (t, s),
        };
        let mut scanner = Scanner::new(token);
        let mut kept = Vec::new();
        let mut count = 0usize;
        let mut found = false;
        while pos < body.len() {
            let end = (pos + size).min(body.len());
            let mut out = Vec::new();
            let used = scanner.feed(&body[pos..end], &mut out);
            pos += used;
            count += out.len();
            match sink {
                Sink::Keep => kept.extend_from_slice(&out),
                Sink::File => open.as_mut().unwrap().3.extend_from_slice(&out),
                Sink::Discard => {}
            }
            if scanner.is_found() {
                found = true;
                break;
            }
        }
        if !found {
            let mut out = Vec::new();
            scanner.finish(&mut out);
            count += out.len();
        }
        match parser.scanned(found, kept, count)? {
            None => {}
            Some(Event::Field(n, t)) => fields.push((n, t)),
            Some(Event::FileStart(n, f, m)) => open = Some((n, f, format!("{}/{}", m.top, m.sub), Vec::new())),
            Some(Event::FileEnd(size)) => {
                let (n, f, m, bytes) = open.take().unwrap();
                files.push((n, f, m, bytes, size));
            }
        }
    }
}

const MIXED: &[u8] = b"preamble\r\n--AaB03x\r\n\
Content-Disposition: form-data; name=\"submit-name\"\r\n\
\r\n\
Larry\r\n\
--AaB03x\r\n\
Content-Disposition: form-data; name=\"files\"\r\n\
Content-Type: multipart/mixed; boundary=BbC04y\r\n\
\r\n\
--BbC04y\r\n\
Content-Disposition: file; filename=\"file1.txt\"\r\n\
\r\n\
... contents of file1.txt ...\r\n\
--BbC04y\r\n\
Content-Disposition: file; filename=\"awesome_image.gif\"\r\n\
Content-Type: image/gif\r\n\
\r\n\
... contents of awesome_image.gif ...\r\n\
--BbC04y--\r\n\
--AaB03x\r\n\
Content-Disposition: form-data; name=\"up\"; filename=\"a.bin\"\r\n\
\r\n\
barbarbarian\r\n--AaB03\r\n\
--AaB03x--";

#[test]
fn stream_parser_matches_whole_body_parser() {
    let ct = "multipart/form-data; boundary=AaB03x";
    let mut reader = ChunkReader::new(MIXED.to_vec());
    let whole = read_formdata(&mut reader, Some(ct)).unwrap();
    for size in 1..50 {
        let (fields, files) = drive(ct, MIXED, size).unwrap();
        assert_eq!(fields, whole.fields);
        assert_eq!(files.len(), whole.files.len());
        for (got, (name, want)) in files.iter().zip(whole.files.iter()) {
            assert_eq!(&got.0, name);
            assert_eq!(got.1, want.filename);
            assert_eq!(got.2, format!("{}/{}", want.content_type.top, want.content_type.sub));
            assert_eq!(got.3, want.contents);
            assert_eq!(got.4, want.size);
        }
    }
}

#[test]
fn stream_parser_nested_files_take_envelope_name() {
    let (_, files) = drive("multipart/form-data; boundary=AaB03x", MIXED, 7).unwrap();
    assert_eq!(files[0].0, "files");
    assert_eq!(files[1].0, "files");
    assert_eq!(files[0].4, 29);
    assert_eq!(files[1].4, 37);
    assert_eq!(files[2].3, b"barbarbarian\r\n--AaB03".to_vec());
}

#[test]
fn stream_parser_errors() {
    let ct = "multipart/form-data; boundary=xyz";
    assert!(matches!(drive(ct, b"--xyz\r\nContent-Type: text/plain\r\n\r\nabc\r\n--xyz--", 3), Err(Error::MissingDisposition)));
    assert!(matches!(drive(ct, b"--xyz\r\nContent-Disposition: form-data\r\n\r\nabc\r\n--xyz--", 3), Err(Error::NoName)));
    assert!(matches!(drive(ct, b"--xyz\r\nContent-Disposition: form-data; name=a\r\n\r\nabc", 3), Err(Error::Eof)));
    assert!(matches!(FormParser::new(Some("text/plain")), Err(Error::NotMultipart)));
}

#[test]
fn scanner_fed_in_chunks() {
    for size in 1..20 {
        let data = b"12barbarbarian7812";
        let mut scanner = Scanner::new(b"barbarian".to_vec());
        let mut out = Vec::new();
        let mut pos = 0;
        while !scanner.is_found() && pos < data.len() {
            let end = (pos + size).min(data.len());
            pos += scanner.feed(&data[pos..end], &mut out);
        }
        assert!(scanner.is_found());
        assert_eq!(pos, 14);
        assert_eq!(out, b"12bar");
    }
    let mut scanner = Scanner::new(b"89".to_vec());
    let mut out = Vec::new();
    assert_eq!(scanner.feed(b"12345678", &mut out), 8);
    assert!(!scanner.is_found());
    scanner.finish(&mut out);
    assert_eq!(out, b"12345678");
}

#[test]
fn stepwise_driver_agrees_with_walk() {
    let ct = "multipart/form-data; boundary=AaB03x";
    for cap in [1usize, 3, 8, 64] {
        let mut a = ChunkReader::with_capacity(cap, MIXED.to_vec());
        let mut b = ChunkReader::with_capacity(cap, MIXED.to_vec());
        let whole = read_formdata(&mut a, Some(ct)).unwrap();
        let steps = formdata::stream::read_formdata_by_steps(&mut b, Some(ct)).unwrap();
        assert_eq!(whole, steps);
    }
    let mut r = ChunkReader::new(b"--xyz\r\nContent-Disposition: form-data; name=a\r\n\r\nabc".to_vec());
    assert!(matches!(
        formdata::stream::read_formdata_by_steps(&mut r, Some("multipart/form-data; boundary=xyz")),
        Err(Error::Eof)
    ));
}
