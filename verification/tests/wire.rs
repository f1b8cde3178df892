use pqcutils::ip::IpAddress;
use pqcutils::ssh::{format_socket_addr, negotiate, parse_ssh_kexinit, read_name_list_owned, read_u32};
use pqcutils::tcp::{TcpFlowKey, TcpJoiner, TcpReassembler};
use pqcutils::text::{decimal_string, split_on_commas};
use pqcutils::tls_wire::{
    parse_extensions, parse_key_share, parse_server_hello_v3, parse_signature_algorithms,
    parse_ssl_v3_client_hello, signature_scheme_name, HelloError,
};
use pqcutils::wire::read_be16;

fn strings(v: &[&str]) -> Vec<String> {
    v.iter().map(|s| s.to_string()).collect()
}

fn hello_prefix(kind: u8) -> Vec<u8> {
    let mut p = vec![0x16, 0x03, 0x01, 0, 0, kind, 0, 0, 0, 0x03, 0x03];
    p.extend_from_slice(&[0x5au8; 32]);
    p
}

fn client_hello_with_extensions(ext: &[u8]) -> Vec<u8> {
    let mut p = hello_prefix(1);
    p.push(0);
    p.extend_from_slice(&[0, 4, 0x13, 0x01, 0x13, 0x02]);
    p.extend_from_slice(&[1, 0]);
    p.extend_from_slice(&(ext.len() as u16).to_be_bytes());
    p.extend_from_slice(ext);
    p
}

fn key_share_ext() -> Vec<u8> {
    vec![
        0x00, 0x33, 0x00, 0x0d, 0x00, 0x0b, 0x11, 0xec, 0x00, 0x02, 0xaa, 0xbb, 0x00, 0x1d, 0x00,
        0x01, 0xcc,
    ]
}

#[test]
fn client_hello_yields_cipher_suites_and_key_share_groups() {
    let p = client_hello_with_extensions(&key_share_ext());
    let c = parse_ssl_v3_client_hello(&p).expect("well formed");
    assert_eq!(c.ciphers, vec![0x1301, 0x1302]);
    assert_eq!(c.keyshare_groups, vec![0x11ec, 0x001d]);
}

#[test]
fn client_hello_other_extensions_are_skipped() {
    let mut ext = vec![0x00, 0x2b, 0x00, 0x03, 0x02, 0x03, 0x04];
    ext.extend_from_slice(&key_share_ext());
    let p = client_hello_with_extensions(&ext);
    let c = parse_ssl_v3_client_hello(&p).expect("well formed");
    assert_eq!(c.keyshare_groups, vec![0x11ec, 0x001d]);
}

#[test]
fn client_hello_errors_name_the_missing_part() {
    let err = |p: &[u8]| match parse_ssl_v3_client_hello(p) {
        Err(e) => e,
        Ok(_) => panic!("expected an error"),
    };
    assert_eq!(err(&[0x16, 0x03, 0x01, 0, 0, 1]), HelloError::TooShortForRandom);
    assert_eq!(err(&hello_prefix(1)[..40]), HelloError::TooShortForSessionIdLength);
    let mut p = hello_prefix(1);
    p.push(5);
    assert_eq!(err(&p), HelloError::TooShortForSessionId);
    let mut p = hello_prefix(1);
    p.extend_from_slice(&[0, 0]);
    assert_eq!(err(&p), HelloError::TooShortForCipherSuitesLength);
    let mut p = hello_prefix(1);
    p.extend_from_slice(&[0, 0, 4, 0x13, 0x01]);
    assert_eq!(err(&p), HelloError::TooShortForCipherSuites);
    let mut p = hello_prefix(1);
    p.extend_from_slice(&[0, 0, 2, 0x13, 0x01]);
    assert_eq!(err(&p), HelloError::TooShortForCompressionMethods);
    let mut p = hello_prefix(1);
    p.extend_from_slice(&[0, 0, 2, 0x13, 0x01, 1, 0]);
    assert_eq!(err(&p), HelloError::TooShortForExtensionsLength);
    let mut p = hello_prefix(1);
    p.extend_from_slice(&[0, 0, 2, 0x13, 0x01, 1, 0, 0, 10, 0, 0]);
    assert_eq!(err(&p), HelloError::TooShortForExtensions);
    let p = client_hello_with_extensions(&[0x00, 0x0a, 0x00, 0x09, 0x00]);
    assert_eq!(err(&p), HelloError::ExtensionOverrun);
    let p = client_hello_with_extensions(&[0x00, 0x33, 0x00, 0x01, 0x00]);
    assert_eq!(err(&p), HelloError::KeyShareTooShort);
    let p = client_hello_with_extensions(&[0x00, 0x33, 0x00, 0x07, 0x00, 0x05, 0x00, 0x1d, 0x00, 0x09, 0x01]);
    assert_eq!(err(&p), HelloError::KeyShareDataTooShort);
}

#[test]
fn hello_error_messages() {
    assert_eq!(HelloError::TooShortForRandom.message(), "Data too short for ProtocolVersion and Random");
    assert_eq!(HelloError::NotServerHello.message(), "Not a ServerHello handshake");
    assert_eq!(HelloError::ExtensionOverrun.message(), "Extension length goes beyond extensions block");
}

fn server_hello_with_extensions(ext: &[u8]) -> Vec<u8> {
    let mut p = hello_prefix(2);
    p.push(0);
    p.extend_from_slice(&[0x13, 0x02, 0x00]);
    p.extend_from_slice(&(ext.len() as u16).to_be_bytes());
    p.extend_from_slice(ext);
    p
}

#[test]
fn server_hello_yields_chosen_suite_and_group() {
    let ext = [
        0x00, 0x2b, 0x00, 0x02, 0x03, 0x04, 0x00, 0x33, 0x00, 0x06, 0x11, 0xec, 0x00, 0x02, 0xaa, 0xbb,
    ];
    let s = parse_server_hello_v3(&server_hello_with_extensions(&ext)).expect("well formed");
    assert_eq!(s.ciphers, vec![0x1302]);
    assert_eq!(s.keyshare, 0x11ec);
}

#[test]
fn server_hello_without_key_share_has_group_zero() {
    let ext = [0x00, 0x2b, 0x00, 0x02, 0x03, 0x03];
    let s = parse_server_hello_v3(&server_hello_with_extensions(&ext)).expect("well formed");
    assert_eq!(s.ciphers, vec![0x1302]);
    assert_eq!(s.keyshare, 0);
    let mut p = server_hello_with_extensions(&[]);
    let n = p.len();
    p[n - 1] = 40;
    let s = parse_server_hello_v3(&p).expect("extensions cut off are ignored");
    assert_eq!(s.keyshare, 0);
}

#[test]
fn server_hello_errors() {
    let err = |p: &[u8]| match parse_server_hello_v3(p) {
        Err(e) => e,
        Ok(_) => panic!("expected an error"),
    };
    assert_eq!(err(&hello_prefix(2)), HelloError::ServerHelloTooShort);
    let mut p = server_hello_with_extensions(&[]);
    p[5] = 1;
    assert_eq!(err(&p), HelloError::NotServerHello);
    let mut p = server_hello_with_extensions(&[]);
    p[43] = 200;
    assert_eq!(err(&p), HelloError::ServerHelloSessionIdTooShort);
}

#[test]
fn key_share_entries_stop_at_a_truncated_entry() {
    let data = [0x00, 0x1d, 0x00, 0x01, 0xcc, 0x11, 0xec, 0x00, 0x05, 0x01];
    let entries = parse_key_share(&data);
    assert_eq!(entries.len(), 1);
    assert_eq!(entries[0].group, 0x001d);
    assert_eq!(entries[0].key_exchange, vec![0xcc]);
    assert!(parse_key_share(&[0x00]).is_empty());
}

#[test]
fn extensions_block_yields_the_last_key_share() {
    let ext = [
        0x00, 0x33, 0x00, 0x05, 0x00, 0x1d, 0x00, 0x01, 0x01, 0x00, 0x33, 0x00, 0x05, 0x02, 0x02,
        0x00, 0x01, 0x02,
    ];
    let entries = parse_extensions(&ext);
    assert_eq!(entries.len(), 1);
    assert_eq!(entries[0].group, 0x0202);
}

#[test]
fn signature_algorithms_are_read_and_named() {
    let data = [0x00, 0x06, 0x08, 0x07, 0x04, 0x03, 0x08, 0x1d];
    assert_eq!(parse_signature_algorithms(&data), vec![0x0807, 0x0403, 0x081d]);
    assert!(parse_signature_algorithms(&[0x00, 0x08, 0x08, 0x07]).is_empty());
    assert_eq!(signature_scheme_name(0x0807), "ed25519");
    assert_eq!(signature_scheme_name(0x081d), "falcon512");
    assert_eq!(signature_scheme_name(0x2a2a), "private_use");
    assert_eq!(signature_scheme_name(0x9999), "unknown");
}

#[test]
fn big_endian_fields() {
    assert_eq!(read_be16(&[0x12, 0x34, 0x56], 1), 0x3456);
    assert_eq!(read_u32(&[9, 0x01, 0x02, 0x03, 0x04], 1), Some((0x01020304, 5)));
    assert_eq!(read_u32(&[1, 2, 3], 0), None);
}

fn name_list(out: &mut Vec<u8>, names: &str) {
    out.extend_from_slice(&(names.len() as u32).to_be_bytes());
    out.extend_from_slice(names.as_bytes());
}

#[test]
fn name_lists_are_split_at_commas() {
    let mut d = vec![0xff];
    name_list(&mut d, "a,b,,c");
    let (names, next) = read_name_list_owned(&d, 1).expect("name list");
    assert_eq!(names, strings(&["a", "b", "", "c"]));
    assert_eq!(next, d.len());
    let mut d = Vec::new();
    name_list(&mut d, "");
    let (names, _) = read_name_list_owned(&d, 0).expect("empty list");
    assert_eq!(names, strings(&[""]));
    assert!(read_name_list_owned(&[0, 0, 0, 9, b'x'], 0).is_none());
    assert!(read_name_list_owned(&[0, 0, 0, 1, 0xff], 0).is_none());
    let (names, _) = read_name_list_owned(b"\x00\x00\x00\x06caf\xc3\xa9x", 0).expect("UTF-8 list");
    assert_eq!(names, strings(&["caf\u{e9}x"]));
}

#[test]
fn kexinit_yields_its_key_exchange_methods() {
    let mut p = vec![0, 0, 0, 0, 4, 20];
    p.extend_from_slice(&[1u8; 16]);
    name_list(&mut p, "mlkem768x25519-sha256,curve25519-sha256");
    for _ in 0..9 {
        name_list(&mut p, "x");
    }
    let k = parse_ssh_kexinit(&p).expect("kexinit");
    assert_eq!(k.kex_algorithms(), &strings(&["mlkem768x25519-sha256", "curve25519-sha256"]));
    let short = &p[..p.len() - 2];
    assert!(parse_ssh_kexinit(short).is_none());
    let mut other = p.clone();
    other[5] = 21;
    assert!(parse_ssh_kexinit(&other).is_none());
}

#[test]
fn negotiation_takes_the_first_client_method_the_server_offers() {
    let client = strings(&["a", "b", "c"]);
    assert_eq!(negotiate(&client, &strings(&["c", "b"])), Some("b".to_string()));
    assert_eq!(negotiate(&client, &strings(&["x"])), None);
    assert_eq!(negotiate(&[], &strings(&["a"])), None);
}

#[test]
fn socket_addresses_bracket_ipv6() {
    assert_eq!(format_socket_addr("10.1.2.3", 22), "10.1.2.3:22");
    assert_eq!(format_socket_addr("fe80::1", 2222), "[fe80::1]:2222");
}

#[test]
fn addresses_are_written_as_rust_displays_them() {
    assert_eq!(IpAddress::V4([192, 168, 0, 10]).to_text(), "192.168.0.10");
    let mut b = [0u8; 16];
    b[0] = 0x20;
    b[1] = 0x01;
    b[2] = 0x0d;
    b[3] = 0xb8;
    b[15] = 1;
    assert_eq!(IpAddress::V6(b).to_text(), "2001:db8::1");
    assert_eq!(IpAddress::V6([0; 16]).to_text(), "::");
    let mut m = [0u8; 16];
    m[10] = 0xff;
    m[11] = 0xff;
    m[12] = 192;
    m[13] = 0;
    m[14] = 2;
    m[15] = 1;
    assert_eq!(IpAddress::V6(m).to_text(), "::ffff:192.0.2.1");
    let mut g = [0u8; 16];
    for i in 0..8 {
        g[2 * i + 1] = (i + 1) as u8;
    }
    g[5] = 0;
    assert_eq!(IpAddress::V6(g).to_text(), "1:2:0:4:5:6:7:8");
    assert!(IpAddress::V4([1, 2, 3, 4]).same_as(&IpAddress::V4([1, 2, 3, 4])));
    assert!(!IpAddress::V4([1, 2, 3, 4]).same_as(&IpAddress::V4([1, 2, 3, 5])));
}

#[test]
fn joiner_hands_out_in_order_segments_and_rejoins_after_a_gap() {
    let mut j = TcpJoiner::new(100);
    assert_eq!(j.push(100, b"abc"), Some(b"abc".to_vec()));
    assert_eq!(j.push(200, b"de"), None);
    assert_eq!(j.push(202, b"fg"), Some(b"defg".to_vec()));
    assert_eq!(j.push(204, b""), None);
    let mut w = TcpJoiner::new(u32::MAX);
    assert_eq!(w.push(u32::MAX, b"xy"), Some(b"xy".to_vec()));
    assert_eq!(w.push(1, b"z"), Some(b"z".to_vec()));
}

#[test]
fn reassembler_keeps_one_joiner_per_flow() {
    let mut r = TcpReassembler::new();
    let a = || TcpFlowKey::new("10.0.0.1".to_string(), "10.0.0.2".to_string(), 1, 2);
    let b = || TcpFlowKey::new("10.0.0.2".to_string(), "10.0.0.1".to_string(), 2, 1);
    assert_eq!(r.push(a(), 10, b"aa"), Some(b"aa".to_vec()));
    assert_eq!(r.push(b(), 50, b"bb"), Some(b"bb".to_vec()));
    assert_eq!(r.push(a(), 20, b"cc"), None);
    assert_eq!(r.push(a(), 22, b"dd"), Some(b"ccdd".to_vec()));
    assert!(a().same_as(&a()));
    assert!(!a().same_as(&b()));
}

#[test]
fn text_helpers() {
    assert_eq!(decimal_string(0), "0");
    assert_eq!(decimal_string(65535), "65535");
    assert_eq!(split_on_commas("a,b"), strings(&["a", "b"]));
    assert_eq!(split_on_commas(""), strings(&[""]));
    assert_eq!(split_on_commas(",x,"), strings(&["", "x", ""]));
}
