use media_parser::errors::MediaParserError;
use media_parser::stream::{
    check_headers, copy_into, file_read_offset, judge_reply, parse_content_range, range_header,
    read_ahead, size_from_head, try_copy_bytes, try_zeroed_bytes, BodyBuffer, ContentRange,
    RangeStep, RangeWalk, ReadWindow, ReplyBody, ReplyHead, HTTP_READ_AHEAD_BYTES,
    MAX_HTTP_HEADERS,
};

#[test]
fn fallible_byte_buffer_reports_capacity_overflow() {
    let error = try_zeroed_bytes(usize::MAX, "test byte buffer")
        .expect_err("usize::MAX cannot be represented as a Vec capacity");

    assert!(
        matches!(error, MediaParserError::Other(message) if message.contains("test byte buffer allocation failed"))
    );
}

#[test]
fn test_content_range_rejects_an_invalid_total() {
    assert_eq!(parse_content_range("bytes 0-3/not-a-size"), None);
}

#[test]
fn byte_buffers_are_zeroed_or_copied() {
    assert_eq!(try_zeroed_bytes(3, "x").unwrap(), vec![0, 0, 0]);
    assert_eq!(try_copy_bytes(&[1, 2], "x").unwrap(), vec![1, 2]);
    let mut target = vec![9, 9, 9];
    assert_eq!(copy_into(&mut target, &[1, 2]), 2);
    assert_eq!(target, vec![1, 2, 9]);
    assert_eq!(copy_into(&mut target, &[4, 5, 6, 7]), 3);
    assert_eq!(target, vec![4, 5, 6]);
}

#[test]
fn content_ranges_are_read() {
    assert_eq!(
        parse_content_range("bytes 2-5/10"),
        Some(ContentRange::Bytes { start: 2, end: 5, total: Some(10) })
    );
    assert_eq!(
        parse_content_range("bytes 2-5/*"),
        Some(ContentRange::Bytes { start: 2, end: 5, total: None })
    );
    assert_eq!(parse_content_range("bytes */10"), Some(ContentRange::Unsatisfied { total: 10 }));
    assert_eq!(parse_content_range("bytes */*"), None);
    assert_eq!(parse_content_range("bytes 5-2/10"), None);
    assert_eq!(parse_content_range("lines 2-5/10"), None);
}

fn reply(status: u16, range: Option<&str>, length: Option<&str>) -> ReplyHead {
    ReplyHead {
        status,
        content_range: range.map(str::to_string),
        content_length: length.map(str::to_string),
    }
}

#[test]
fn test_http_range_not_satisfiable_reports_eof_and_learns_size() {
    let (size, body) = judge_reply(20, 29, &reply(416, Some("bytes */10"), None));
    assert_eq!(size, Some(10));
    assert_eq!(body.unwrap(), ReplyBody::Nothing);
    let (size, body) = judge_reply(5, 29, &reply(416, Some("bytes */10"), None));
    assert_eq!(size, Some(10));
    assert!(matches!(body, Err(MediaParserError::HttpStatus(416))));
    let (_, body) = judge_reply(5, 29, &reply(416, Some("bytes 0-1/2"), None));
    assert_eq!(
        body.unwrap_err().message(),
        "HTTP request failed: invalid Content-Range for an unsatisfiable response"
    );
}

#[test]
fn test_http_rejects_mismatched_content_range() {
    let (_, body) = judge_reply(2, 5, &reply(206, Some("bytes 0-3/10"), None));
    assert_eq!(
        body.unwrap_err().message(),
        "HTTP request failed: Content-Range bytes 0-3 does not match requested range 2-5"
    );
    let (_, body) = judge_reply(2, 5, &reply(206, Some("bytes 2-5/5"), None));
    assert_eq!(
        body.unwrap_err().message(),
        "HTTP request failed: Content-Range exceeds the reported stream size"
    );
    let (_, body) = judge_reply(2, 5, &reply(206, None, None));
    assert_eq!(
        body.unwrap_err().message(),
        "HTTP request failed: missing or invalid Content-Range response"
    );
    let (_, body) = judge_reply(2, 5, &reply(206, Some("bytes */9"), None));
    assert_eq!(
        body.unwrap_err().message(),
        "HTTP request failed: invalid Content-Range for a partial response"
    );
}

#[test]
fn test_http_rejects_server_ignoring_nonzero_range() {
    let (size, body) = judge_reply(2, 5, &reply(200, None, Some("10")));
    assert_eq!(size, None);
    assert_eq!(
        body.unwrap_err().message(),
        "HTTP request failed: server ignored the requested byte range 2-5"
    );
    let (size, body) = judge_reply(0, 5, &reply(200, None, Some("10")));
    assert_eq!(size, Some(10));
    assert_eq!(body.unwrap(), ReplyBody::Whole);
    let (_, body) = judge_reply(0, 5, &reply(503, None, None));
    assert!(matches!(body, Err(MediaParserError::HttpStatus(503))));
}

#[test]
fn test_http_rejects_a_truncated_partial_response() {
    let (size, body) = judge_reply(2, 5, &reply(206, Some("bytes 2-5/10"), None));
    assert_eq!(size, Some(10));
    let expected = match body.unwrap() {
        ReplyBody::Exactly(n) => n,
        other => panic!("not partial: {:?}", other),
    };
    assert_eq!(expected, 4);
    let mut buffer = BodyBuffer::new(vec![0; 4]);
    assert!(!buffer.absorb(&[1, 2]));
    assert_eq!(
        buffer.finish(Some(expected)).unwrap_err().message(),
        "HTTP request failed: partial response body length mismatch: expected 4 bytes, received 2"
    );
}

#[test]
fn a_body_is_read_up_to_the_size_of_the_buffer() {
    let mut buffer = BodyBuffer::new(vec![0; 5]);
    assert!(!buffer.absorb(&[1, 2]));
    assert!(!buffer.absorb(&[]));
    assert!(buffer.absorb(&[3, 4, 5, 6]));
    assert_eq!(buffer.finish(None).unwrap(), vec![1, 2, 3, 4, 5]);
}

#[test]
fn a_range_is_asked_for_in_words() {
    assert_eq!(range_header(3, 9).unwrap(), "bytes=3-9");
    assert_eq!(
        range_header(9, 3).unwrap_err().message(),
        "Invalid MP4 format: Invalid range: end (3) < start (9)"
    );
}

#[test]
fn a_read_walks_to_the_known_end() {
    let mut walk = RangeWalk::new(6, 10);
    assert_eq!(walk.next(Some(10)).unwrap(), Some(RangeStep { start: 6, end: 9, len: 4 }));
    assert!(walk.advance(3).unwrap());
    assert_eq!(walk.next(Some(10)).unwrap(), Some(RangeStep { start: 9, end: 9, len: 1 }));
    assert!(walk.advance(1).unwrap());
    assert_eq!(walk.next(Some(10)).unwrap(), None);
    assert_eq!(walk.read(), 4);
    assert!(!walk.advance(0).unwrap());
    let far = RangeWalk::new(u64::MAX, 10);
    assert_eq!(far.next(None).unwrap_err().message(), "HTTP range overflow");
}

#[test]
fn file_offsets_do_not_wrap() {
    assert_eq!(file_read_offset(5, 6).unwrap(), 11);
    assert_eq!(
        file_read_offset(u64::MAX, 1).unwrap_err().message(),
        "file read offset overflow"
    );
}

#[test]
fn test_http_reuses_a_read_ahead_window_for_nearby_reads() {
    let window = ReadWindow { offset: 100, data: vec![0; 50] };
    assert_eq!(window.serve(None, 110, 20), Some((10, 20)));
    assert_eq!(window.serve(None, 140, 20), None);
    assert_eq!(window.serve(Some(150), 140, 20), Some((40, 10)));
    assert_eq!(window.serve(None, 99, 1), None);
    assert_eq!(window.serve(None, 151, 1), None);
    assert_eq!(read_ahead(None, 5), HTTP_READ_AHEAD_BYTES);
    assert_eq!(read_ahead(Some(105), 5), 100);
    assert_eq!(read_ahead(Some(5), 5), 0);
}

fn header(name: &str, value: &str) -> (String, String) {
    (name.to_string(), value.to_string())
}

#[test]
fn test_http_rejects_duplicate_header_names_ignoring_case() {
    let error = check_headers(&[header("X-Test", "one"), header("x-test", "two")]).unwrap_err();
    assert_eq!(
        error.message(),
        "HTTP request failed: duplicate header name ignoring case: 'x-test'"
    );
}

#[test]
fn test_http_header_count_is_limited_before_building_the_client() {
    let many: Vec<(String, String)> =
        (0..MAX_HTTP_HEADERS + 1).map(|n| header(&format!("x-{}", n), "v")).collect();
    let error = check_headers(&many).unwrap_err();
    assert_eq!(error.message(), "HTTP request failed: At most 64 HTTP headers are supported");
    assert_eq!(check_headers(&many[1..]).unwrap().len(), MAX_HTTP_HEADERS);
}

#[test]
fn header_names_and_values_are_checked() {
    assert_eq!(
        check_headers(&[header("X-Test", "a b")]).unwrap(),
        vec![header("x-test", "a b")]
    );
    assert_eq!(
        check_headers(&[header("bad name", "v")]).unwrap_err().message(),
        "HTTP request failed: Invalid header name 'bad name': invalid HTTP header name"
    );
    assert!(check_headers(&[header("", "v")]).is_err());
    assert_eq!(
        check_headers(&[header("x", "a\nb")]).unwrap_err().message(),
        "HTTP request failed: Invalid header value for 'x': failed to parse header value"
    );
    assert!(check_headers(&[header("x", "a\tb")]).is_ok());
    assert!(check_headers(&[header("x", "caf\u{e9}")]).is_ok());
    assert!(check_headers(&[header("x", "a\u{7f}")]).is_err());
    for name in ["!#$%&'*+-.^_`|~09azAZ"] {
        assert!(check_headers(&[header(name, "v")]).is_ok());
    }
    for name in ["a(b", "a:b", "a/b", "a[b", "a{b", "a\"b", "caf\u{e9}"] {
        assert!(check_headers(&[header(name, "v")]).is_err(), "{}", name);
    }
    let long = "x".repeat(65_535);
    assert!(check_headers(&[header(&long, "v")]).is_ok());
    assert!(check_headers(&[header(&format!("{}x", long), "v")]).is_err());
}

#[test]
fn test_http_size_falls_back_to_head_before_the_first_read() {
    assert_eq!(size_from_head(true, &reply(200, None, Some("42"))).unwrap(), 42);
    assert!(matches!(
        size_from_head(true, &reply(200, None, None)),
        Err(MediaParserError::ContentLengthMissing)
    ));
    assert!(matches!(
        size_from_head(true, &reply(200, None, Some("x"))),
        Err(MediaParserError::ContentLengthMissing)
    ));
    assert!(matches!(
        size_from_head(false, &reply(404, None, Some("42"))),
        Err(MediaParserError::HttpStatus(404))
    ));
}
