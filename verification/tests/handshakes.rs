use proxy_rs::http::{parse_request, scan_headers, HeaderScan, HttpError};
use proxy_rs::socks5::{greeting_step, request_step, Socks5Action, Socks5Error, Socks5Target};
use proxy_rs::wire::WireError;

const SUCCEEDED: [u8; 10] = [5, 0, 0, 1, 0, 0, 0, 0, 0, 0];

#[test]
fn socks5_greeting_accepts_no_auth() {
    match greeting_step(&[5, 2, 2, 0, 99]) {
        Socks5Action::Greeted { reply, used } => {
            assert_eq!(reply, vec![5, 0]);
            assert_eq!(used, 4);
        }
        _ => panic!("greeting not accepted"),
    }
}

#[test]
fn socks5_greeting_refusals() {
    match greeting_step(&[5, 1, 2]) {
        Socks5Action::Refuse { reply, error } => {
            assert_eq!(reply, vec![5, 0xFF]);
            assert_eq!(error, Socks5Error::NoAcceptableAuth);
        }
        _ => panic!("greeting without method 0 accepted"),
    }
    match greeting_step(&[4, 1, 0]) {
        Socks5Action::Refuse { reply, error } => {
            assert!(reply.is_empty());
            assert_eq!(error, Socks5Error::UnsupportedVersion(4));
        }
        _ => panic!("SOCKS4 greeting accepted"),
    }
    match greeting_step(&[5, 0]) {
        Socks5Action::Refuse { error, .. } => assert_eq!(error, Socks5Error::NoAcceptableAuth),
        _ => panic!("empty method list accepted"),
    }
}

#[test]
fn socks5_greeting_waits_for_bytes() {
    assert!(matches!(greeting_step(&[]), Socks5Action::Read { needed: 1 }));
    assert!(matches!(greeting_step(&[5]), Socks5Action::Read { needed: 2 }));
    assert!(matches!(greeting_step(&[5, 3, 0]), Socks5Action::Read { needed: 5 }));
}

#[test]
fn socks5_connect_ipv4() {
    match request_step(&[5, 1, 0, 1, 127, 0, 0, 1, 0x04, 0x38]) {
        Socks5Action::Connect { reply, target, port, used } => {
            assert_eq!(reply, SUCCEEDED.to_vec());
            assert_eq!(port, 1080);
            assert_eq!(used, 10);
            assert!(matches!(target, Socks5Target::Ipv4([127, 0, 0, 1])));
            assert_eq!(target.host_text().as_deref(), Some("127.0.0.1"));
        }
        _ => panic!("request not accepted"),
    }
}

#[test]
fn socks5_connect_domain() {
    let mut req = vec![5, 1, 0, 3, 11];
    req.extend_from_slice(b"example.org");
    req.extend_from_slice(&[0x01, 0xBB]);
    req.extend_from_slice(b"payload");
    match request_step(&req) {
        Socks5Action::Connect { reply, target, port, used } => {
            assert_eq!(reply, SUCCEEDED.to_vec());
            assert_eq!(port, 443);
            assert_eq!(used, 18);
            assert_eq!(target.host_text().as_deref(), Some("example.org"));
        }
        _ => panic!("request not accepted"),
    }
}

#[test]
fn socks5_connect_ipv6() {
    let mut req = vec![5, 1, 0, 4];
    req.extend_from_slice(&[0, 0, 0, 0, 0, 0, 0, 0, 0, 0, 0, 0, 0, 0, 0, 1]);
    req.extend_from_slice(&[0, 80]);
    match request_step(&req) {
        Socks5Action::Connect { target, port, used, .. } => {
            assert_eq!(port, 80);
            assert_eq!(used, 22);
            match target {
                Socks5Target::Ipv6(a) => assert_eq!(a[15], 1),
                _ => panic!("not an IPv6 target"),
            }
        }
        _ => panic!("request not accepted"),
    }
}

#[test]
fn socks5_request_refusals() {
    match request_step(&[5, 2, 0, 1]) {
        Socks5Action::Refuse { reply, error } => {
            assert_eq!(reply, vec![5, 7, 0, 1, 0, 0, 0, 0, 0, 0]);
            assert_eq!(error, Socks5Error::UnsupportedCommand(2));
        }
        _ => panic!("BIND accepted"),
    }
    match request_step(&[4, 1, 0, 1]) {
        Socks5Action::Refuse { reply, error } => {
            assert!(reply.is_empty());
            assert_eq!(error, Socks5Error::ExpectedSocks5(4));
        }
        _ => panic!("wrong version accepted"),
    }
    match request_step(&[5, 1, 0, 9]) {
        Socks5Action::Refuse { reply, error } => {
            assert!(reply.is_empty());
            assert_eq!(error, Socks5Error::UnsupportedAddressType(9));
        }
        _ => panic!("unknown address type accepted"),
    }
    match request_step(&[5, 1, 0, 3, 1, 0xFF]) {
        Socks5Action::Refuse { error, .. } => {
            let std_text = String::from_utf8(vec![0xFF]).unwrap_err().to_string();
            assert_eq!(error, Socks5Error::InvalidDomainName(std_text.clone()));
            assert_eq!(error.message(), std_text);
        }
        _ => panic!("invalid host name accepted"),
    }
}

#[test]
fn socks5_request_waits_for_bytes() {
    assert!(matches!(request_step(&[]), Socks5Action::Read { needed: 1 }));
    assert!(matches!(request_step(&[5, 1]), Socks5Action::Read { needed: 4 }));
    assert!(matches!(request_step(&[5, 1, 0, 1, 1]), Socks5Action::Read { needed: 10 }));
    assert!(matches!(request_step(&[5, 1, 0, 3]), Socks5Action::Read { needed: 5 }));
    assert!(matches!(request_step(&[5, 1, 0, 3, 2, b'a']), Socks5Action::Read { needed: 7 }));
    assert!(matches!(request_step(&[5, 1, 0, 3, 2, b'a', b'b']), Socks5Action::Read { needed: 9 }));
    assert!(matches!(request_step(&[5, 1, 0, 4, 0]), Socks5Action::Read { needed: 22 }));
}

#[test]
fn ipv6_target_text_is_left_to_the_caller() {
    assert!(Socks5Target::Ipv6([0; 16]).host_text().is_none());
    assert_eq!(Socks5Target::Ipv4([255, 10, 0, 9]).host_text().as_deref(), Some("255.10.0.9"));
}

#[test]
fn http_headers_end_at_blank_line() {
    assert_eq!(scan_headers(b"GET / HTTP/1.1\r\n"), HeaderScan::NeedMore);
    assert_eq!(scan_headers(b"GET / HTTP/1.1\r\n\r\n"), HeaderScan::Complete);
    assert_eq!(scan_headers(b""), HeaderScan::NeedMore);
    let big = vec![b'a'; 65536];
    assert_eq!(scan_headers(&big), HeaderScan::NeedMore);
    let bigger = vec![b'a'; 65537];
    assert_eq!(scan_headers(&bigger), HeaderScan::TooLarge);
    let mut closed = vec![b'a'; 65537];
    closed.extend_from_slice(b"\r\n\r\n");
    assert_eq!(scan_headers(&closed), HeaderScan::Complete);
}

#[test]
fn http_connect_request() {
    let head = b"CONNECT example.com:443 HTTP/1.1\r\nHost: example.com:443\r\n\r\n".to_vec();
    match parse_request(head) {
        Ok(t) => {
            assert_eq!(t.host, "example.com");
            assert_eq!(t.port, 443);
            assert_eq!(t.reply, b"HTTP/1.1 200 Connection Established\r\n\r\n".to_vec());
            assert!(t.preamble.is_empty());
        }
        Err(_) => panic!("CONNECT refused"),
    }
}

#[test]
fn http_connect_splits_at_last_colon() {
    match parse_request(b"CONNECT [::1]:8443 HTTP/1.1\r\n\r\n".to_vec()) {
        Ok(t) => {
            assert_eq!(t.host, "[::1]");
            assert_eq!(t.port, 8443);
        }
        Err(_) => panic!("CONNECT refused"),
    }
}

#[test]
fn http_plain_request_default_port() {
    let head = b"GET http://example.com/index.html HTTP/1.1\r\nHost: example.com\r\n\r\n".to_vec();
    match parse_request(head.clone()) {
        Ok(t) => {
            assert_eq!(t.host, "example.com");
            assert_eq!(t.port, 80);
            assert!(t.reply.is_empty());
            assert_eq!(t.preamble, head);
        }
        Err(_) => panic!("request refused"),
    }
}

#[test]
fn http_plain_request_with_port() {
    match parse_request(b"POST http://h\xc3\xa9st:8080 HTTP/1.0\r\n\r\n".to_vec()) {
        Ok(t) => {
            assert_eq!(t.host, "hést");
            assert_eq!(t.port, 8080);
        }
        Err(_) => panic!("request refused"),
    }
    match parse_request(b"GET http://h:+81/x HTTP/1.0\r\n\r\n".to_vec()) {
        Ok(t) => assert_eq!(t.port, 81),
        Err(_) => panic!("request refused"),
    }
}

#[test]
fn http_request_errors() {
    match parse_request(vec![0xFF, b'\r', b'\n']) {
        Err(e @ HttpError::InvalidUtf8(_)) => {
            assert_eq!(e.message(), std::str::from_utf8(&[0xFF, b'\r', b'\n']).unwrap_err().to_string());
        }
        _ => panic!("head that is not UTF-8 accepted"),
    }
    assert!(matches!(parse_request(b"GET / HTTP/1.1".to_vec()), Err(HttpError::EmptyRequest)));
    assert!(matches!(parse_request(b"GET\r\n\r\n".to_vec()), Err(HttpError::MissingTarget)));
    match parse_request(b"CONNECT example.com HTTP/1.1\r\n\r\n".to_vec()) {
        Err(HttpError::InvalidConnectTarget(t)) => assert_eq!(t, "example.com"),
        _ => panic!("CONNECT without port accepted"),
    }
    match parse_request(b"CONNECT h:99999 HTTP/1.1\r\n\r\n".to_vec()) {
        Err(e @ HttpError::InvalidPort(_)) => assert_eq!(e.message(), "99999".parse::<u16>().unwrap_err().to_string()),
        _ => panic!("bad port 99999 accepted"),
    }
    match parse_request(b"CONNECT h: HTTP/1.1\r\n\r\n".to_vec()) {
        Err(e @ HttpError::InvalidPort(_)) => assert_eq!(e.message(), "".parse::<u16>().unwrap_err().to_string()),
        _ => panic!("bad port  accepted"),
    }
    match parse_request(b"CONNECT h:-1 HTTP/1.1\r\n\r\n".to_vec()) {
        Err(e @ HttpError::InvalidPort(_)) => assert_eq!(e.message(), "-1".parse::<u16>().unwrap_err().to_string()),
        _ => panic!("bad port -1 accepted"),
    }
    match parse_request(b"GET /index.html HTTP/1.1\r\n\r\n".to_vec()) {
        Err(HttpError::ExpectedHttpUrl(t)) => assert_eq!(t, "/index.html"),
        _ => panic!("origin-form target accepted"),
    }
    match parse_request(b"GET http://h:x/ HTTP/1.1\r\n\r\n".to_vec()) {
        Err(e @ HttpError::InvalidPort(_)) => assert_eq!(e.message(), "x".parse::<u16>().unwrap_err().to_string()),
        _ => panic!("bad port x accepted"),
    }
}

#[test]
fn http_method_is_case_sensitive() {
    match parse_request(b"connect h:1 HTTP/1.1\r\n\r\n".to_vec()) {
        Err(HttpError::ExpectedHttpUrl(t)) => assert_eq!(t, "h:1"),
        _ => panic!("lowercase connect treated as CONNECT"),
    }
}

#[test]
fn socks5_error_messages() {
    assert_eq!(Socks5Error::UnsupportedVersion(4).message(), "unsupported SOCKS version: 4");
    assert_eq!(Socks5Error::NoAcceptableAuth.message(), "client offered no acceptable auth methods");
    assert_eq!(Socks5Error::ExpectedSocks5(255).message(), "expected SOCKS5 in request, got version 255");
    for c in [0u8, 2, 0x1f, 0xff] {
        assert_eq!(
            Socks5Error::UnsupportedCommand(c).message(),
            format!("unsupported SOCKS5 command: {c:#04x} (only CONNECT supported)")
        );
        assert_eq!(Socks5Error::UnsupportedAddressType(c).message(), format!("unsupported SOCKS5 address type: {c:#04x}"));
    }
}

#[test]
fn http_error_messages() {
    assert_eq!(HttpError::EmptyRequest.message(), "empty HTTP request");
    assert_eq!(HttpError::MissingTarget.message(), "missing HTTP target");
    assert_eq!(HttpError::InvalidConnectTarget("example.com".to_string()).message(), "invalid CONNECT target: example.com");
    assert_eq!(HttpError::ExpectedHttpUrl("/index.html".to_string()).message(), "expected http:// URL, got: /index.html");
    assert_eq!(WireError::UnsupportedVersion(2).message(), "unsupported proxy protocol version: 2");
}
