use formdata::{BufReadExt, ChunkReader};

#[test]
fn stream_until_token() {
    let mut buf = ChunkReader::new(b"123456".to_vec());
    let mut result: Vec<u8> = Vec::new();
    assert_eq!(buf.stream_until_token(b"78", &mut result), 6);
    assert_eq!(result, b"123456");
    let mut buf = ChunkReader::new(b"12345678".to_vec());
    let mut result: Vec<u8> = Vec::new();
    assert_eq!(buf.stream_until_token(b"34", &mut result), 4);
    assert_eq!(result, b"12");
    result.truncate(0);
    assert_eq!(buf.stream_until_token(b"78", &mut result), 4);
    assert_eq!(result, b"56");

    let mut buf = ChunkReader::new(b"bananas for nana".to_vec());
    let mut result: Vec<u8> = Vec::new();
    assert_eq!(buf.stream_until_token(b"nan", &mut result), 5);
    assert_eq!(result, b"ba");
    result.truncate(0);
    assert_eq!(buf.stream_until_token(b"nan", &mut result), 10);
    assert_eq!(result, b"as for ");
    result.truncate(0);
    assert_eq!(buf.stream_until_token(b"nan", &mut result), 1);
    assert_eq!(result, b"a");
    result.truncate(0);
    assert_eq!(buf.stream_until_token(b"nan", &mut result), 0);
    assert_eq!(result, b"");
}

#[test]
fn stream_until_token_straddle_test() {
    let mut buf = ChunkReader::with_capacity(8, b"12345TOKEN345678".to_vec());
    let mut result: Vec<u8> = Vec::new();
    assert_eq!(buf.stream_until_token(b"TOKEN", &mut result), 10);
    assert_eq!(result, b"12345");
    result.truncate(0);
    assert_eq!(buf.stream_until_token(b"TOKEN", &mut result), 6);
    assert_eq!(result, b"345678");
    result.truncate(0);
    assert_eq!(buf.stream_until_token(b"TOKEN", &mut result), 0);
    assert_eq!(result, b"");

    let mut buf = ChunkReader::with_capacity(8, b"12345TOKE23456781TOKEN78".to_vec());
    let mut result: Vec<u8> = Vec::new();
    assert_eq!(buf.stream_until_token(b"TOKEN", &mut result), 22);
    assert_eq!(result, b"12345TOKE23456781");
}

#[test]
fn stream_until_token_large_token_test() {
    let mut buf = ChunkReader::with_capacity(8, b"IAMALARGETOKEN7812345678".to_vec());
    let mut v: Vec<u8> = Vec::new();
    assert_eq!(buf.stream_until_token(b"IAMALARGETOKEN", &mut v), 14);
    assert_eq!(v, b"");
    assert_eq!(buf.stream_until_token(b"IAMALARGETOKEN", &mut v), 10);
    assert_eq!(v, b"7812345678");

    let mut buf = ChunkReader::with_capacity(8, b"0IAMALARGERTOKEN12345678".to_vec());
    let mut v: Vec<u8> = Vec::new();
    assert_eq!(buf.stream_until_token(b"IAMALARGERTOKEN", &mut v), 16);
    assert_eq!(v, b"0");
    v.truncate(0);
    assert_eq!(buf.stream_until_token(b"IAMALARGERTOKEN", &mut v), 8);
    assert_eq!(v, b"12345678");
}

#[test]
fn stream_until_token_double_straddle_test() {
    let mut buf = ChunkReader::with_capacity(8, b"12345IAMALARGETOKEN4567".to_vec());
    let mut v: Vec<u8> = Vec::new();
    assert_eq!(buf.stream_until_token(b"IAMALARGETOKEN", &mut v), 5 + 14);
    assert_eq!(v, b"12345");
    v.truncate(0);
    assert_eq!(buf.stream_until_token(b"IAMALARGETOKEN", &mut v), 4);
    assert_eq!(v, b"4567");
}

#[test]
fn stream_until_token_multiple_prefix_text() {
    let mut buf = ChunkReader::with_capacity(8, b"12barbarian4567".to_vec());
    let mut v: Vec<u8> = Vec::new();
    assert_eq!(buf.stream_until_token(b"barbarian", &mut v), 2 + 9);
    assert_eq!(v, b"12");

    let mut buf = ChunkReader::with_capacity(8, b"12barbarbarian7812".to_vec());
    let mut v: Vec<u8> = Vec::new();
    assert_eq!(buf.stream_until_token(b"barbarian", &mut v), 5 + 9);
    assert_eq!(v, b"12bar");
}

fn scan_with(cap: usize, data: &[u8], token: &[u8]) -> (usize, Vec<u8>, bool) {
    let mut buf = ChunkReader::with_capacity(cap, data.to_vec());
    let mut v: Vec<u8> = Vec::new();
    let n = buf.stream_until_token(token, &mut v);
    (n, v, buf.is_exhausted())
}

#[test]
fn scan_same_result_for_every_chunk_size() {
    let cases: Vec<(&[u8], &[u8])> = vec![
        (b"12barbarbarian7812", b"barbarian"),
        (b"abababY.", b"ababX"),
        (b"abababababX", b"ababX"),
        (b"aaaaaaaab", b"aaab"),
        (b"no delimiter here", b"zz"),
        (b"12345678", b"89"),
        (b"xyz", b"xyzxyz"),
        (b"\r\n--abc\r\n--abc--", b"\r\n--abc"),
    ];
    for (data, token) in cases {
        let whole = scan_with(data.len().max(1), data, token);
        for cap in 1..=data.len() + 2 {
            assert_eq!(scan_with(cap, data, token), whole, "capacity {}", cap);
        }
    }
}

#[test]
fn scan_withheld_prefix_is_flushed_when_partial_match_fails() {
    let (n, v, _) = scan_with(2, b"abababY.", b"ababX");
    assert_eq!(n, 8);
    assert_eq!(v, b"abababY.");
}

#[test]
fn scan_flushes_trailing_partial_delimiter_at_end() {
    let (n, v, done) = scan_with(8, b"12345678", b"89");
    assert_eq!(n, 8);
    assert_eq!(v, b"12345678");
    assert!(done);
}

#[test]
fn scan_delimiter_longer_than_chunk() {
    let data = b"0123THIS-IS-A-VERY-LONG-DELIMITER-STRING-OF-BYTESrest";
    let token = b"THIS-IS-A-VERY-LONG-DELIMITER-STRING-OF-BYTES";
    for cap in 1..9 {
        let mut buf = ChunkReader::with_capacity(cap, data.to_vec());
        let mut v: Vec<u8> = Vec::new();
        assert_eq!(buf.stream_until_token(token, &mut v), 4 + token.len());
        assert_eq!(v, b"0123");
        v.truncate(0);
        assert_eq!(buf.stream_until_token(token, &mut v), 4);
        assert_eq!(v, b"rest");
    }
}

#[test]
fn scan_token_reports_whether_found() {
    let mut buf = ChunkReader::with_capacity(3, b"abcdef".to_vec());
    let mut v: Vec<u8> = Vec::new();
    assert_eq!(buf.scan_token(b"cd", &mut v), (4, true));
    assert_eq!(v, b"ab");
    assert!(buf.starts_with(b"ef"));
    assert!(!buf.starts_with(b"efg"));
    v.truncate(0);
    assert_eq!(buf.scan_token(b"cd", &mut v), (2, false));
    assert_eq!(v, b"ef");
    assert!(buf.is_exhausted());
}
