use ipserve::ip_info::extract_ip_info;

fn req(text: &str) -> Vec<u8> {
    text.as_bytes().to_vec()
}

#[test]
fn peer_used_when_no_headers() {
    let info = extract_ip_info(&req("GET / HTTP/1.1\r\n\r\n"), &b"9.9.9.9".to_vec());
    assert_eq!(info.public_ip, b"9.9.9.9".to_vec());
    assert_eq!(info.peer_ip, b"9.9.9.9".to_vec());
    assert_eq!(info.forwarded, b"none".to_vec());
    assert_eq!(info.user_agent, b"unknown".to_vec());
}

#[test]
fn fly_client_ip_preferred() {
    let r = req(
        "POST / HTTP/1.1\r\nFly-Client-Ip: 1.1.1.1\r\nX-Forwarded-For: 2.2.2.2\r\nX-Real-Ip: 3.3.3.3\r\n\r\n",
    );
    let info = extract_ip_info(&r, &b"9.9.9.9".to_vec());
    assert_eq!(info.public_ip, b"1.1.1.1".to_vec());
    assert_eq!(info.forwarded, b"2.2.2.2".to_vec());
}

#[test]
fn forwarded_first_entry_used() {
    let r = req("POST / HTTP/1.1\r\nX-Forwarded-For: 1.2.3.4, 5.6.7.8\r\n\r\n");
    let info = extract_ip_info(&r, &b"9.9.9.9".to_vec());
    assert_eq!(info.public_ip, b"1.2.3.4".to_vec());
    assert_eq!(info.forwarded, b"1.2.3.4, 5.6.7.8".to_vec());
}

#[test]
fn x_real_ip_fallback() {
    let r = req("POST / HTTP/1.1\r\nX-Real-Ip: 3.3.3.3\r\n\r\n");
    let info = extract_ip_info(&r, &b"9.9.9.9".to_vec());
    assert_eq!(info.public_ip, b"3.3.3.3".to_vec());
}

#[test]
fn header_names_case_insensitive() {
    let r = req("POST / HTTP/1.1\r\nX-REAL-IP: 7.7.7.7\r\nUSER-agent: probe\r\n\r\n");
    let info = extract_ip_info(&r, &b"9.9.9.9".to_vec());
    assert_eq!(info.public_ip, b"7.7.7.7".to_vec());
    assert_eq!(info.user_agent, b"probe".to_vec());
}

#[test]
fn later_header_overrides_earlier() {
    let r = req("GET / HTTP/1.1\r\nUser-Agent: first\r\nUser-Agent: second\r\n\r\n");
    let info = extract_ip_info(&r, &b"9.9.9.9".to_vec());
    assert_eq!(info.user_agent, b"second".to_vec());
}

#[test]
fn headers_after_blank_line_ignored() {
    let r = req("POST / HTTP/1.1\r\nHost: a\r\n\r\nFly-Client-Ip: 1.1.1.1\r\n");
    let info = extract_ip_info(&r, &b"9.9.9.9".to_vec());
    assert_eq!(info.public_ip, b"9.9.9.9".to_vec());
}

#[test]
fn surrounding_whitespace_trimmed() {
    let r = req("GET / HTTP/1.1\r\n  User-Agent  :   spaced out  \r\n\r\n");
    let info = extract_ip_info(&r, &b"9.9.9.9".to_vec());
    assert_eq!(info.user_agent, b"spaced out".to_vec());
}
