use proxy_rs::ack::Ack;
use proxy_rs::bits::pack_bits;
use proxy_rs::codec::StreamCodec;
use proxy_rs::file_send::FileSendHeader;
use proxy_rs::ping::{PingHeader, PingServerProtocolV1};
use proxy_rs::proxy_header::{read_proxy_header, read_target_v1, ProxyHeader, ProxyServerProtocolV1};
use proxy_rs::wire::{Decoded, WireError};

fn proxy_header(host: &str, port: u16, r: bool, w: bool, x: bool) -> ProxyHeader {
    ProxyHeader { version: 1, host: host.to_string(), port, can_read: r, can_write: w, can_execute: x }
}

#[test]
fn pack_bits_sets_one_bit_per_flag() {
    assert_eq!(pack_bits([false; 8]), 0);
    assert_eq!(pack_bits([true; 8]), 0xFF);
    assert_eq!(pack_bits([true, false, true, false, false, false, false, false]), 0b0000_0101);
    assert_eq!(pack_bits([false, false, false, false, false, false, false, true]), 0b1000_0000);
}

#[test]
fn proxy_header_wire_bytes() {
    let mut out = Vec::new();
    proxy_header("example.com", 443, true, false, false).write_to_stream(&mut out);
    let mut expected = vec![1u8, 0, 11];
    expected.extend_from_slice(b"example.com");
    expected.extend_from_slice(&[0x01, 0xBB, 0b0000_0001]);
    assert_eq!(out, expected);
}

#[test]
fn proxy_header_flags_use_three_bits() {
    let mut out = Vec::new();
    proxy_header("h", 1, true, true, true).write_to_stream(&mut out);
    assert_eq!(*out.last().unwrap(), 0b0000_0111);
    let mut out = Vec::new();
    proxy_header("h", 1, false, true, false).write_to_stream(&mut out);
    assert_eq!(*out.last().unwrap(), 0b0000_0010);
}

#[test]
fn proxy_header_roundtrip_with_trailing_data() {
    let h = proxy_header("localhost", 8080, true, false, true);
    let mut out = Vec::new();
    h.write_to_stream(&mut out);
    let n = out.len();
    out.extend_from_slice(b"GET / HTTP/1.1\r\n");
    match read_proxy_header(&out) {
        Ok(Decoded::Complete { value, used }) => {
            assert_eq!(used, n);
            assert_eq!(value.version, 1);
            assert_eq!(value.host, "localhost");
            assert_eq!(value.port, 8080);
            assert!(value.can_read);
            assert!(!value.can_write);
            assert!(value.can_execute);
        }
        _ => panic!("header not decoded"),
    }
}

#[test]
fn proxy_header_prefixes_ask_for_more() {
    let mut out = Vec::new();
    proxy_header("abc", 22, true, false, false).write_to_stream(&mut out);
    let expected_needs = [1usize, 3, 3, 6, 6, 6, 9, 9, 9];
    for k in 0..out.len() {
        match read_proxy_header(&out[..k]) {
            Ok(Decoded::Incomplete { needed }) => {
                assert_eq!(needed, expected_needs[k]);
                assert!(needed > k && needed <= out.len());
            }
            _ => panic!("prefix of length {} decided", k),
        }
    }
}

#[test]
fn proxy_header_rejects_other_versions() {
    assert!(matches!(read_proxy_header(&[2, 0, 0]), Err(WireError::UnsupportedVersion(2))));
    assert!(matches!(read_proxy_header(&[0]), Err(WireError::UnsupportedVersion(0))));
}

#[test]
fn proxy_header_rejects_invalid_host() {
    assert!(matches!(read_proxy_header(&[1, 0, 2, 0xFF, 0xFE, 0, 80, 1]), Err(WireError::InvalidUtf8(_))));
}

#[test]
fn read_target_v1_reads_body_without_version() {
    let body = [0u8, 1, b'x', 0x1F, 0x90, 0b0000_0110];
    match read_target_v1(&body) {
        Ok(Decoded::Complete { value, used }) => {
            assert_eq!(used, 6);
            assert_eq!(value.host, "x");
            assert_eq!(value.port, 8080);
            assert_eq!(value.version, 1);
            assert!(!value.can_read && value.can_write && value.can_execute);
        }
        _ => panic!("body not decoded"),
    }
}

#[test]
fn proxy_server_dials_host_and_port() {
    let server = ProxyServerProtocolV1;
    assert_eq!(server.tcp_target(&proxy_header("example.com", 443, true, false, false)), "example.com:443");
    assert_eq!(server.tcp_target(&proxy_header("10.0.0.1", 0, true, false, false)), "10.0.0.1:0");
    assert_eq!(server.tcp_target(&proxy_header("ünï", 65535, true, false, false)), "ünï:65535");
}

fn file_header(name: &str, size: u64, overwrite: bool) -> FileSendHeader {
    FileSendHeader { version: 1, file_name: name.to_string(), file_size: size, can_overwrite: overwrite }
}

#[test]
fn file_send_header_wire_bytes() {
    let mut out = Vec::new();
    file_header("a.txt", 0x0102030405060708, true).write_to_stream(&mut out);
    let mut expected = vec![1u8, 0, 5];
    expected.extend_from_slice(b"a.txt");
    expected.extend_from_slice(&[1, 2, 3, 4, 5, 6, 7, 8, 1]);
    assert_eq!(out, expected);
}

#[test]
fn file_send_header_roundtrip_keeps_file_bytes() {
    let h = FileSendHeader { version: 7, file_name: "report.pdf".to_string(), file_size: 123_456_789, can_overwrite: false };
    let mut out = Vec::new();
    h.write_to_stream(&mut out);
    let n = out.len();
    out.extend_from_slice(&[9, 9, 9]);
    match FileSendHeader::from_stream(&out) {
        Ok(Decoded::Complete { value, used }) => {
            assert_eq!(used, n);
            assert_eq!(value.version, 7);
            assert_eq!(value.file_name, "report.pdf");
            assert_eq!(value.file_size, 123_456_789);
            assert!(!value.can_overwrite);
        }
        _ => panic!("header not decoded"),
    }
}

#[test]
fn file_send_header_codec_matches_stream_form() {
    let h = file_header("x", u64::MAX, true);
    let mut a = Vec::new();
    h.write_to_stream(&mut a);
    let mut b = Vec::new();
    h.encode(&mut b);
    assert_eq!(a, b);
    match <FileSendHeader as StreamCodec>::decode(&a) {
        Ok(Decoded::Complete { value, used }) => {
            assert_eq!(used, a.len());
            assert_eq!(value.file_name, "x");
            assert_eq!(value.file_size, u64::MAX);
            assert!(value.can_overwrite);
        }
        _ => panic!("codec did not decode"),
    }
    assert!(matches!(<FileSendHeader as StreamCodec>::decode(&a[..4]), Ok(Decoded::Incomplete { needed: 13 })));
}

#[test]
fn file_send_header_prefixes_ask_for_more() {
    let mut out = Vec::new();
    file_header("ab", 1, false).write_to_stream(&mut out);
    for k in 0..out.len() {
        match FileSendHeader::from_stream(&out[..k]) {
            Ok(Decoded::Incomplete { needed }) => assert!(needed > k && needed <= out.len()),
            _ => panic!("prefix of length {} decided", k),
        }
    }
}

#[test]
fn file_send_header_rejects_invalid_name() {
    assert!(matches!(FileSendHeader::from_stream(&[1, 0, 1, 0x80]), Err(WireError::InvalidUtf8(_))));
}

#[test]
fn primitive_codecs() {
    let mut out = Vec::new();
    7u8.encode(&mut out);
    0xABCDu16.encode(&mut out);
    1u64.encode(&mut out);
    "hé".to_string().encode(&mut out);
    assert_eq!(out, vec![7, 0xAB, 0xCD, 0, 0, 0, 0, 0, 0, 0, 1, 0, 3, b'h', 0xC3, 0xA9]);
    assert!(matches!(<u8 as StreamCodec>::decode(&out), Ok(Decoded::Complete { value: 7, used: 1 })));
    assert!(matches!(<u16 as StreamCodec>::decode(&out[1..]), Ok(Decoded::Complete { value: 0xABCD, used: 2 })));
    assert!(matches!(<u64 as StreamCodec>::decode(&out[3..]), Ok(Decoded::Complete { value: 1, used: 8 })));
    match <String as StreamCodec>::decode(&out[11..]) {
        Ok(Decoded::Complete { value, used }) => {
            assert_eq!(value, "hé");
            assert_eq!(used, 5);
        }
        _ => panic!("string not decoded"),
    }
    assert!(matches!(<u64 as StreamCodec>::decode(&[0; 7]), Ok(Decoded::Incomplete { needed: 8 })));
    assert!(matches!(<String as StreamCodec>::decode(&[0, 4, b'a']), Ok(Decoded::Incomplete { needed: 6 })));
}

#[test]
fn string_length_field_wraps_at_16_bits() {
    let long = "a".repeat(65536 + 3);
    let mut out = Vec::new();
    long.encode(&mut out);
    assert_eq!(&out[..2], &[0, 3]);
    assert_eq!(out.len(), 2 + 65539);
}

#[test]
fn ack_wire_bytes() {
    let mut out = Vec::new();
    Ack::new(0, None).write_ack(&mut out);
    assert_eq!(out, vec![0]);
    let mut out = Vec::new();
    Ack::new(1, Some("no".to_string())).write_ack(&mut out);
    assert_eq!(out, vec![1, 0, 2, b'n', b'o']);
}

#[test]
fn ack_new_keeps_fields() {
    let a = Ack::new(3, Some("m".to_string()));
    assert_eq!(a.ack, 3);
    assert_eq!(a.msg.as_deref(), Some("m"));
}

#[test]
fn ack_roundtrip() {
    let mut out = Vec::new();
    Ack::new(1, Some("file x already exists".to_string())).write_ack(&mut out);
    out.push(42);
    match Ack::read_ack(&out) {
        Decoded::Complete { value, used } => {
            assert_eq!(used, out.len() - 1);
            assert_eq!(value.ack, 1);
            assert_eq!(value.msg.as_deref(), Some("file x already exists"));
        }
        _ => panic!("ack not decoded"),
    }
}

#[test]
fn success_ack_carries_no_message() {
    match Ack::read_ack(&[0, 0, 5]) {
        Decoded::Complete { value, used } => {
            assert_eq!(used, 1);
            assert_eq!(value.ack, 0);
            assert!(value.msg.is_none());
        }
        _ => panic!("ack not decoded"),
    }
}

#[test]
fn error_ack_message_is_read_lossily() {
    match Ack::read_ack(&[2, 0, 2, b'a', 0xFF]) {
        Decoded::Complete { value, used } => {
            assert_eq!(used, 5);
            assert_eq!(value.msg.as_deref(), Some("a\u{FFFD}"));
        }
        _ => panic!("ack not decoded"),
    }
    assert!(matches!(Ack::read_ack(&[]), Decoded::Incomplete { needed: 1 }));
    assert!(matches!(Ack::read_ack(&[1, 0]), Decoded::Incomplete { needed: 3 }));
    assert!(matches!(Ack::read_ack(&[1, 0, 4, b'a']), Decoded::Incomplete { needed: 7 }));
}

#[test]
fn ping_roundtrip_and_echo() {
    let ping = PingHeader { version: 1, msg: "ping".to_string() };
    let mut out = Vec::new();
    ping.write_to_stream(&mut out);
    assert_eq!(out, vec![1, 0, 4, b'p', b'i', b'n', b'g']);
    let decoded = match PingHeader::from_stream(&out) {
        Ok(Decoded::Complete { value, used }) => {
            assert_eq!(used, 7);
            value
        }
        _ => panic!("ping not decoded"),
    };
    let pong = PingServerProtocolV1.reply(decoded);
    assert_eq!(pong.version, 1);
    assert!(pong.answers(&ping));
    let other = PingHeader { version: 1, msg: "pong".to_string() };
    assert!(!other.answers(&ping));
}

#[test]
fn ping_prefixes_and_errors() {
    assert!(matches!(PingHeader::from_stream(&[]), Ok(Decoded::Incomplete { needed: 1 })));
    assert!(matches!(PingHeader::from_stream(&[1, 0]), Ok(Decoded::Incomplete { needed: 3 })));
    assert!(matches!(PingHeader::from_stream(&[1, 0, 2, b'a']), Ok(Decoded::Incomplete { needed: 5 })));
    assert!(matches!(PingHeader::from_stream(&[1, 0, 1, 0xC3]), Err(WireError::InvalidUtf8(_))));
}
