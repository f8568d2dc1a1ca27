use proxy_rs::ack::Ack;
use proxy_rs::ping::PingHeader;
use proxy_rs::proxy_header::ProxyHeader;
use proxy_rs::wire::Decoded;
use proxy_rs::client::{get_proxy_addr_and_type, proxy_type_of_scheme, try_get_proxy_addr_and_type, ProxyType, ProxyUrlError};
use proxy_rs::codec::{group_fields, FieldGroup};
use proxy_rs::file_send::{FileSendHeader, FileSendRefusal, FileServerEvent, FileServerProtocolV1, FileServerStep};
use proxy_rs::keys::{parse_secret_key, parse_server_node_id, secret_key_text, KeyError};
use proxy_rs::node_ids::{add_node_id, choose_node_id, join_node_ids, parse_node_ids, white_space, NodeIdChoice};
use proxy_rs::text::{hex_encode, parse_u16, push_decimal};

#[test]
fn listen_url_kinds() {
    let (t, addr) = get_proxy_addr_and_type("socks5://127.0.0.1:1080");
    assert_eq!(t, ProxyType::Socks5);
    assert_eq!(addr, "127.0.0.1:1080");
    let (t, addr) = get_proxy_addr_and_type("HTTP://0.0.0.0:8080");
    assert_eq!(t, ProxyType::Http);
    assert_eq!(addr, "0.0.0.0:8080");
    let (t, addr) = get_proxy_addr_and_type("SoCkS5://a://b");
    assert_eq!(t, ProxyType::Socks5);
    assert_eq!(addr, "a://b");
}

#[test]
fn listen_url_refusals() {
    let refusal = |url: &str| match try_get_proxy_addr_and_type(url) {
        Err(e) => e.message(),
        Ok(_) => panic!("accepted {url}"),
    };
    assert_eq!(refusal("127.0.0.1:1080"), "Invalid format: must be protocol://host:port");
    assert_eq!(refusal(""), "Invalid format: must be protocol://host:port");
    assert_eq!(refusal("http:/x"), "Invalid format: must be protocol://host:port");
    assert_eq!(refusal("https://127.0.0.1:1080"), "Unsupported proxy type: https");
    assert_eq!(refusal("SOCKS4://h:1"), "Unsupported proxy type: SOCKS4");
    assert!(matches!(try_get_proxy_addr_and_type("ftp://h"), Err(ProxyUrlError::UnsupportedType(p)) if p == "ftp"));
    assert!(matches!(try_get_proxy_addr_and_type("h:1"), Err(ProxyUrlError::InvalidFormat)));
    assert_eq!(try_get_proxy_addr_and_type("http://").map(|(t, a)| (t, a.len())).ok(), Some((ProxyType::Http, 0)));
}

#[test]
fn lowercased_scheme_names_a_proxy() {
    assert_eq!(proxy_type_of_scheme("socks5"), Some(ProxyType::Socks5));
    assert_eq!(proxy_type_of_scheme("http"), Some(ProxyType::Http));
    assert_eq!(proxy_type_of_scheme("SOCKS5"), None);
    assert_eq!(proxy_type_of_scheme("https"), None);
    assert_eq!(proxy_type_of_scheme(""), None);
}

#[test]
fn node_ids_file_parsing() {
    let ids = parse_node_ids("  abc \n\n\tdef\r\n   \nghi");
    assert_eq!(ids, vec!["abc".to_string(), "def".to_string(), "ghi".to_string()]);
    assert!(parse_node_ids("").is_empty());
    assert!(parse_node_ids("\n \n\u{3000}\n").is_empty());
    assert_eq!(parse_node_ids("\u{a0}x y\u{2028}"), vec!["x y".to_string()]);
}

#[test]
fn node_ids_add_and_join() {
    let mut ids = vec!["a".to_string()];
    assert!(add_node_id(&mut ids, "b"));
    assert_eq!(ids, vec!["a".to_string(), "b".to_string()]);
    assert!(!add_node_id(&mut ids, "a"));
    assert_eq!(ids.len(), 2);
    let text = join_node_ids(&ids);
    assert_eq!(text, "a\nb");
    assert_eq!(parse_node_ids(&text), ids);
    assert_eq!(join_node_ids(&Vec::new()), "");
}

#[test]
fn saved_id_is_read_back() {
    let content = "  first \r\n\n second\n";
    let mut ids = parse_node_ids(content);
    assert!(add_node_id(&mut ids, "third"));
    let text = join_node_ids(&ids);
    assert_eq!(text, "first\nsecond\nthird");
    assert_eq!(parse_node_ids(&text), vec!["first".to_string(), "second".to_string(), "third".to_string()]);
    let mut again = parse_node_ids(&text);
    assert!(!add_node_id(&mut again, "second"));
    assert_eq!(again, parse_node_ids(&text));
}

#[test]
fn node_id_choice() {
    assert!(matches!(choose_node_id(Vec::new()), NodeIdChoice::NoSavedIds));
    match choose_node_id(vec!["only".to_string()]) {
        NodeIdChoice::Only(id) => assert_eq!(id, "only"),
        _ => panic!("single id not chosen"),
    }
    match choose_node_id(vec!["a".to_string(), "b".to_string()]) {
        NodeIdChoice::AskUser(ids) => assert_eq!(ids.len(), 2),
        _ => panic!("several ids not offered"),
    }
}

#[test]
fn white_space_matches_std() {
    for c in ['\t', '\n', '\u{b}', '\u{c}', '\r', ' ', '\u{85}', '\u{a0}', '\u{1680}', '\u{2000}', '\u{200a}', '\u{2028}', '\u{2029}', '\u{202f}', '\u{205f}', '\u{3000}', 'a', '\u{200b}', '\u{feff}', '0'] {
        assert_eq!(white_space(c), c.is_whitespace(), "{:?}", c);
    }
}

#[test]
fn node_id_keys() {
    let valid = "ae58ff8833241ac82d6ff7611046ed67b5072d142c588d0063e942d9a75502b6";
    match parse_server_node_id(valid) {
        Ok((key, bytes)) => {
            assert_eq!(hex_encode(&bytes), valid);
            assert_eq!(key.as_bytes(), &bytes);
        }
        Err(e) => panic!("valid node id refused: {e:?}"),
    }
    assert!(matches!(parse_server_node_id("not a key"), Err(KeyError::InvalidNodeId)));
    let bytes = [0xABu8; 32];
    let text = secret_key_text(&bytes);
    assert_eq!(text, "ab".repeat(32));
    assert_eq!(parse_secret_key(&text).map(|(_, b)| b), Ok(bytes));
    assert!(matches!(parse_secret_key("abc"), Err(KeyError::InvalidSecretKey)));
}

#[test]
fn hex_and_decimal() {
    assert_eq!(hex_encode(&[0x00, 0x0F, 0xA0, 0xFF]), "000fa0ff");
    assert_eq!(hex_encode(&[]), "");
    let mut out = Vec::new();
    push_decimal(&mut out, 0);
    push_decimal(&mut out, 1234567890);
    assert_eq!(out, b"01234567890".to_vec());
}

#[test]
fn port_parsing_matches_std() {
    for s in ["0", "80", "+80", "0080", "65535", "65536", "", "+", "-1", "1a", " 1", "99999999999", "++1"] {
        assert_eq!(parse_u16(s.as_bytes()), s.parse::<u16>().ok(), "{:?}", s);
    }
}

#[test]
fn bitpacked_fields_share_a_byte() {
    let groups = group_fields(&[false, true, true, false, true]);
    assert_eq!(groups.len(), 4);
    assert!(matches!(groups[0], FieldGroup::Regular(0)));
    match &groups[1] {
        FieldGroup::Bitpack(v) => assert_eq!(v, &vec![1, 2]),
        _ => panic!("flags not grouped"),
    }
    assert!(matches!(groups[2], FieldGroup::Regular(3)));
    match &groups[3] {
        FieldGroup::Bitpack(v) => assert_eq!(v, &vec![4]),
        _ => panic!("flag not grouped"),
    }
    assert!(group_fields(&[]).is_empty());
}

#[test]
fn file_server_checks() {
    let server = FileServerProtocolV1;
    let h = FileSendHeader { version: 1, file_name: "a.txt".to_string(), file_size: 3, can_overwrite: false };
    assert!(server.check_version(&h).is_ok());
    assert!(server.check_target(&h, false).is_ok());
    assert_eq!(server.check_target(&h, true), Err(FileSendRefusal::AlreadyExists));
    let ack = server.refusal_ack(&h, FileSendRefusal::AlreadyExists);
    assert_eq!(ack.ack, 1);
    assert_eq!(ack.msg.as_deref(), Some("file a.txt already exists"));
    let h2 = FileSendHeader { version: 2, file_name: "a.txt".to_string(), file_size: 3, can_overwrite: true };
    assert_eq!(server.check_version(&h2), Err(FileSendRefusal::UnsupportedVersion(2)));
    assert!(server.check_target(&h2, true).is_ok());
    let ack = server.refusal_ack(&h2, FileSendRefusal::UnsupportedVersion(2));
    assert_eq!(ack.msg.as_deref(), Some("unsupported file_send protocol version"));
    let ok = server.success_ack();
    assert_eq!(ok.ack, 0);
    assert!(ok.msg.is_none());
}

#[test]
fn refusal_reaches_the_client() {
    let server = FileServerProtocolV1;
    let h = FileSendHeader { version: 1, file_name: "report.pdf".to_string(), file_size: 10, can_overwrite: false };
    let mut wire = Vec::new();
    server.refusal_ack(&h, FileSendRefusal::AlreadyExists).write_ack(&mut wire);
    let n = wire.len();
    wire.extend_from_slice(&[9, 9]);
    match Ack::read_ack(&wire) {
        Decoded::Complete { value, used } => {
            assert_eq!(used, n);
            assert_eq!(value.ack, 1);
            assert_eq!(value.msg.as_deref(), Some("file report.pdf already exists"));
        }
        Decoded::Incomplete { .. } => panic!("refusal not read back"),
    }
}

#[test]
fn saved_secret_key_is_loaded_back() {
    for seed in [0u8, 1, 0x7f, 0xff] {
        let mut bytes = [0u8; 32];
        for (i, b) in bytes.iter_mut().enumerate() {
            *b = seed.wrapping_mul(31).wrapping_add(i as u8);
        }
        let text = secret_key_text(&bytes);
        assert_eq!(text.len(), 64);
        assert!(text.chars().all(|c| c.is_ascii_hexdigit() && !c.is_ascii_uppercase()));
        assert_eq!(parse_secret_key(&text).map(|(_, b)| b), Ok(bytes));
    }
    let upper = "AB".repeat(32);
    assert!(matches!(parse_secret_key(&upper), Err(KeyError::InvalidSecretKey)));
}

#[test]
fn client_header_values() {
    let h = ProxyHeader::client_request("example.com".to_string(), 443);
    assert_eq!((h.version, h.host.as_str(), h.port, h.can_read, h.can_write, h.can_execute), (1, "example.com", 443, true, false, false));
    let p = PingHeader::ping();
    assert_eq!((p.version, p.msg.as_str()), (1, "ping"));
    let f = FileSendHeader::announce("a.bin".to_string(), 42, true);
    assert_eq!((f.version, f.file_name.as_str(), f.file_size, f.can_overwrite), (1, "a.bin", 42, true));
}

#[test]
fn ack_outcome() {
    assert_eq!(Ack::new(0, None).outcome(), Ok(()));
    assert_eq!(Ack::new(1, Some("no".to_string())).outcome(), Err(Some("no".to_string())));
    assert_eq!(Ack::new(7, None).outcome(), Err(None));
}

#[test]
fn no_saved_ids_refusal() {
    let none = choose_node_id(Vec::new());
    assert_eq!(none.refusal().as_deref(), Some("No saved server node IDs. Pass one with -n on first run."));
    assert!(choose_node_id(vec!["a".to_string()]).refusal().is_none());
    assert!(choose_node_id(vec!["a".to_string(), "b".to_string()]).refusal().is_none());
}

#[test]
fn file_server_steps() {
    let server = FileServerProtocolV1;
    let h = FileSendHeader::announce("x.txt".to_string(), 5, false);
    assert!(matches!(server.next_step(&h, FileServerEvent::HeaderReceived), FileServerStep::CheckFile));
    match server.next_step(&h, FileServerEvent::FileChecked(true)) {
        FileServerStep::Refuse { ack, error } => {
            assert_eq!(error, FileSendRefusal::AlreadyExists);
            assert_eq!(ack.msg.as_deref(), Some("file x.txt already exists"));
            assert_eq!(error.error_text(), "file already exists and overwrite not allowed");
        }
        _ => panic!("existing file replaced"),
    }
    match server.next_step(&h, FileServerEvent::FileChecked(false)) {
        FileServerStep::Receive { ack, name, size } => {
            assert_eq!((ack.ack, name.as_str(), size), (0, "x.txt", 5));
        }
        _ => panic!("new file refused"),
    }
    assert!(matches!(server.next_step(&h, FileServerEvent::FileWritten), FileServerStep::Finish { ack } if ack.ack == 0));
    let old = FileSendHeader { version: 3, file_name: "x.txt".to_string(), file_size: 5, can_overwrite: true };
    match server.next_step(&old, FileServerEvent::HeaderReceived) {
        FileServerStep::Refuse { error, .. } => {
            assert_eq!(error.error_text(), "unsupported file_send protocol version: 3");
        }
        _ => panic!("version 3 accepted"),
    }
}
