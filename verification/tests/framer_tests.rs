use ipserve::framer::RequestFramer;

#[test]
fn simple_get_framed_in_one_chunk() {
    let mut f = RequestFramer::new();
    let req = b"GET / HTTP/1.1\r\nHost: example\r\n\r\n";
    assert!(f.push_chunk(req));
    assert_eq!(f.into_bytes(), req.to_vec());
}

#[test]
fn body_completes_exactly_at_declared_length() {
    let mut f = RequestFramer::new();
    assert!(!f.push_chunk(b"POST / HTTP/1.1\r\nContent-Length: 5\r\n\r\n"));
    assert!(!f.push_chunk(b"abcd"));
    assert!(f.push_chunk(b"e"));
    assert!(f.is_done());
}

#[test]
fn early_close_returns_partial_body() {
    let mut f = RequestFramer::new();
    assert!(!f.push_chunk(b"POST / HTTP/1.1\r\nContent-Length: 10\r\n\r\nab"));
    f.note_eof();
    assert!(f.is_done());
    assert_eq!(f.into_bytes(), b"POST / HTTP/1.1\r\nContent-Length: 10\r\n\r\nab".to_vec());
}

#[test]
fn cap_bounds_unterminated_stream() {
    let mut f = RequestFramer::new();
    let chunk = [97u8; 8192];
    let mut rounds = 0u32;
    loop {
        assert!(rounds < 10);
        rounds += 1;
        if f.push_chunk(&chunk) {
            break;
        }
    }
    // Two chunks reach 16384 bytes, the third passes the cap and stops.
    assert_eq!(rounds, 3);
    let bytes = f.into_bytes();
    assert_eq!(bytes.len(), 24576);
    assert!(bytes.len() <= 16384 + 8192);
}

#[test]
fn content_length_name_case_insensitive() {
    let mut f = RequestFramer::new();
    assert!(!f.push_chunk(b"POST / HTTP/1.1\r\ncOnTent-LENGTH: 3\r\n\r\n"));
    assert!(!f.push_chunk(b"ab"));
    assert!(f.push_chunk(b"c"));
}

#[test]
fn unparsable_content_length_defaults_to_zero() {
    let mut f = RequestFramer::new();
    assert!(f.push_chunk(b"POST / HTTP/1.1\r\nContent-Length: abc\r\n\r\n"));
}

#[test]
fn oversized_content_length_defaults_to_zero() {
    let mut f = RequestFramer::new();
    assert!(f.push_chunk(b"POST / HTTP/1.1\r\nContent-Length: 99999999999999999999999999\r\n\r\n"));
}

#[test]
fn plus_prefixed_content_length_parses() {
    let mut f = RequestFramer::new();
    assert!(!f.push_chunk(b"POST / HTTP/1.1\r\nContent-Length: +2\r\n\r\n"));
    assert!(f.push_chunk(b"xy"));
}

#[test]
fn first_content_length_line_wins() {
    let mut f = RequestFramer::new();
    assert!(!f.push_chunk(b"POST / HTTP/1.1\r\nContent-Length: 3\r\nContent-Length: 1\r\n\r\n"));
    assert!(!f.push_chunk(b"ab"));
    assert!(f.push_chunk(b"c"));
}

#[test]
fn missing_content_length_completes_at_terminator() {
    let mut f = RequestFramer::new();
    assert!(!f.push_chunk(b"GET / HTTP/1.1\r\nHost: a"));
    assert!(f.push_chunk(b"\r\n\r\n"));
}
