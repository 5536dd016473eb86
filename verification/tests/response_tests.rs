use ipserve::framer::RequestFramer;
use ipserve::rate_limiter::{check_rate_limit, RateLimiter};
use ipserve::response::{
    format_response, plain_text_type, rate_limited_message, too_many_requests_status,
};

#[test]
fn response_wire_format_exact() {
    let r = format_response(b"200 OK", b"text/plain", b"hi");
    assert_eq!(
        String::from_utf8(r).unwrap(),
        "HTTP/1.1 200 OK\r\nContent-Type: text/plain\r\nContent-Length: 2\r\nConnection: close\r\n\r\nhi"
    );
}

#[test]
fn content_length_digits_multidigit() {
    let body = [120u8; 1234];
    let r = format_response(b"200 OK", b"text/html", &body);
    let text = String::from_utf8_lossy(&r).to_string();
    assert!(text.contains("Content-Length: 1234\r\n"));
}

#[test]
fn empty_body_has_length_zero() {
    let r = format_response(b"404 Not Found", b"text/plain", b"");
    assert_eq!(
        String::from_utf8(r).unwrap(),
        "HTTP/1.1 404 Not Found\r\nContent-Type: text/plain\r\nContent-Length: 0\r\nConnection: close\r\n\r\n"
    );
}

#[test]
fn rate_limit_rejection_texts() {
    assert_eq!(
        String::from_utf8(too_many_requests_status()).unwrap(),
        "429 Too Many Requests"
    );
    assert_eq!(
        String::from_utf8(rate_limited_message()).unwrap(),
        "rate limit exceeded"
    );
    assert_eq!(String::from_utf8(plain_text_type()).unwrap(), "text/plain");
}

#[test]
fn fresh_key_get_is_allowed_framed_and_handed_on() {
    let mut limiter = RateLimiter::new();
    let ip = String::from("203.0.113.7");
    assert!(check_rate_limit(&mut limiter, &ip, 0));
    let mut f = RequestFramer::new();
    let req = b"GET / HTTP/1.1\r\nHost: a\r\n\r\n";
    assert!(f.push_chunk(req));
    let bytes = f.into_bytes();
    assert_eq!(bytes, req.to_vec());
    assert!(bytes.starts_with(b"GET / "));
}

#[test]
fn thirty_one_rapid_gets_last_rejected_with_429() {
    let mut limiter = RateLimiter::new();
    let ip = String::from("10.0.0.1");
    let mut verdicts: Vec<bool> = Vec::new();
    for i in 0..31u64 {
        verdicts.push(check_rate_limit(&mut limiter, &ip, i * 100));
    }
    for i in 0..30 {
        assert!(verdicts[i], "request {} should be routed", i + 1);
    }
    assert!(!verdicts[30], "request 31 must be rejected");
    let status = too_many_requests_status();
    let ctype = plain_text_type();
    let body = rate_limited_message();
    let wire = format_response(&status, &ctype, &body);
    assert_eq!(
        String::from_utf8(wire).unwrap(),
        "HTTP/1.1 429 Too Many Requests\r\nContent-Type: text/plain\r\nContent-Length: 19\r\nConnection: close\r\n\r\nrate limit exceeded"
    );
}
