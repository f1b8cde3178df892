use pqcutils::capture::{CaptureError, CaptureState};
use pqcutils::ip::IpAddress;
use pqcutils::summary::{summarize, KexAlgo, SummaryError, TlsGroup, PQC_SUPPORTED};
use pqcutils::table::Table;
use pqcutils::tls::TlsSessionKey;

fn ipv4_frame(src: [u8; 4], dst: [u8; 4], sport: u16, dport: u16, seq: u32, payload: &[u8]) -> Vec<u8> {
    let mut f = Vec::new();
    f.extend_from_slice(&[0x02, 0, 0, 0, 0, 0x01, 0x02, 0, 0, 0, 0, 0x02, 0x08, 0x00]);
    let total = (20 + 20 + payload.len()) as u16;
    f.extend_from_slice(&[0x45, 0, (total >> 8) as u8, total as u8, 0, 1, 0x40, 0, 64, 6, 0, 0]);
    f.extend_from_slice(&src);
    f.extend_from_slice(&dst);
    f.extend_from_slice(&sport.to_be_bytes());
    f.extend_from_slice(&dport.to_be_bytes());
    f.extend_from_slice(&seq.to_be_bytes());
    f.extend_from_slice(&[0, 0, 0, 0, 0x50, 0x18, 0xff, 0xff, 0, 0, 0, 0]);
    f.extend_from_slice(payload);
    f
}

fn ipv6_frame(src: [u8; 16], dst: [u8; 16], sport: u16, dport: u16, seq: u32, payload: &[u8]) -> Vec<u8> {
    let mut f = Vec::new();
    f.extend_from_slice(&[0x02, 0, 0, 0, 0, 0x01, 0x02, 0, 0, 0, 0, 0x02, 0x86, 0xdd]);
    let plen = (20 + payload.len()) as u16;
    f.extend_from_slice(&[0x60, 0, 0, 0, (plen >> 8) as u8, plen as u8, 6, 64]);
    f.extend_from_slice(&src);
    f.extend_from_slice(&dst);
    f.extend_from_slice(&sport.to_be_bytes());
    f.extend_from_slice(&dport.to_be_bytes());
    f.extend_from_slice(&seq.to_be_bytes());
    f.extend_from_slice(&[0, 0, 0, 0, 0x50, 0x18, 0xff, 0xff, 0, 0, 0, 0]);
    f.extend_from_slice(payload);
    f
}

fn name_list(out: &mut Vec<u8>, names: &str) {
    out.extend_from_slice(&(names.len() as u32).to_be_bytes());
    out.extend_from_slice(names.as_bytes());
}

fn kexinit(kex: &str) -> Vec<u8> {
    let mut p = vec![0, 0, 0, 0, 4, 20];
    p.extend_from_slice(&[7u8; 16]);
    name_list(&mut p, kex);
    for _ in 0..9 {
        name_list(&mut p, "none");
    }
    p
}

fn client_hello(ciphers: &[u16], groups: &[u16]) -> Vec<u8> {
    let mut p = vec![0x16, 0x03, 0x01, 0, 0, 0x01, 0, 0, 0, 0x03, 0x03];
    p.extend_from_slice(&[0x11u8; 32]);
    p.push(0);
    p.extend_from_slice(&((ciphers.len() * 2) as u16).to_be_bytes());
    for c in ciphers {
        p.extend_from_slice(&c.to_be_bytes());
    }
    p.extend_from_slice(&[1, 0]);
    let mut shares = Vec::new();
    for g in groups {
        shares.extend_from_slice(&g.to_be_bytes());
        shares.extend_from_slice(&[0, 2, 0xaa, 0xbb]);
    }
    let mut ext = vec![0x00, 0x33];
    ext.extend_from_slice(&((shares.len() + 2) as u16).to_be_bytes());
    ext.extend_from_slice(&(shares.len() as u16).to_be_bytes());
    ext.extend_from_slice(&shares);
    p.extend_from_slice(&(ext.len() as u16).to_be_bytes());
    p.extend_from_slice(&ext);
    p
}

fn server_hello(cipher: u16, group: u16) -> Vec<u8> {
    let mut p = vec![0x16, 0x03, 0x03, 0, 0, 0x02, 0, 0, 0, 0x03, 0x03];
    p.extend_from_slice(&[0x22u8; 32]);
    p.push(0);
    p.extend_from_slice(&cipher.to_be_bytes());
    p.push(0);
    let mut ext = vec![0x00, 0x2b, 0x00, 0x02, 0x03, 0x04, 0x00, 0x33, 0x00, 0x06];
    ext.extend_from_slice(&group.to_be_bytes());
    ext.extend_from_slice(&[0, 2, 0xaa, 0xbb]);
    p.extend_from_slice(&(ext.len() as u16).to_be_bytes());
    p.extend_from_slice(&ext);
    p
}

fn kex_table() -> Table<String, KexAlgo> {
    let mut t = Table::new();
    t.put(
        "sntrup761x25519-sha512".to_string(),
        KexAlgo { pqc: false, broken: false, hybrid: Some(true), desc: Some("hybrid".to_string()), href: None },
    );
    t.put(
        "mlkem768-sha256".to_string(),
        KexAlgo { pqc: true, broken: false, hybrid: None, desc: None, href: Some("h".to_string()) },
    );
    t.put(
        "curve25519-sha256".to_string(),
        KexAlgo { pqc: false, broken: false, hybrid: Some(false), desc: Some("classic".to_string()), href: Some("l".to_string()) },
    );
    t
}

fn group(name: &str, id: u16, pqc: bool, hybrid: bool) -> TlsGroup {
    TlsGroup {
        name: name.to_string(),
        group_id: id,
        pqc,
        hybrid,
        obsolete: false,
        insecure: false,
        desc: format!("{} group", name),
        href: "-".to_string(),
    }
}

fn group_table() -> Table<u16, TlsGroup> {
    let mut t = Table::new();
    t.put(0x11ec, group("X25519MLKEM768", 0x11ec, false, true));
    t.put(0x0202, group("MLKEM1024", 0x0202, true, false));
    t.put(0x001d, group("x25519", 0x001d, false, false));
    t
}

const CLIENT: [u8; 4] = [10, 0, 0, 1];
const SERVER: [u8; 4] = [10, 0, 0, 2];

#[test]
fn frames_are_sliced_down_to_their_tcp_payload() {
    let mut state = CaptureState::new();
    let c = kexinit("mlkem768-sha256");
    let frame = ipv4_frame([192, 0, 2, 7], [198, 51, 100, 9], 40022, 2222, 77, &c);
    assert!(state.process_packet(&frame, false).is_ok());
    let (flow, _) = state.ssh_sessions.entry_at(0);
    assert_eq!(flow.src(), "192.0.2.7:40022");
    assert_eq!(flow.dst(), "198.51.100.9:2222");
    assert!(state.host_caps.get(&"192.0.2.7".to_string()).is_some());
}

#[test]
fn linux_cooked_frames_are_sliced_too() {
    let mut state = CaptureState::new();
    let c = kexinit("mlkem768-sha256");
    let eth = ipv4_frame(CLIENT, SERVER, 40022, 22, 1, &c);
    let mut sll = vec![0, 0, 0, 1, 0, 6, 2, 0, 0, 0, 0, 1, 0, 0, 0x08, 0x00];
    sll.extend_from_slice(&eth[14..]);
    assert!(state.process_packet(&sll, true).is_ok());
    assert_eq!(state.ssh_sessions.len(), 1);
    assert_eq!(state.ssh_sessions.entry_at(0).0.src(), "10.0.0.1:40022");
}

#[test]
fn truncated_frame_is_not_examined() {
    let mut state = CaptureState::new();
    let c = kexinit("mlkem768-sha256");
    let frame = ipv4_frame(CLIENT, SERVER, 1, 2, 3, &c);
    assert!(state.process_packet(&frame[..30], false).is_ok());
    assert_eq!(state.ssh_sessions.len(), 0);
}

#[test]
fn tls_handshake_is_followed_and_summarised() {
    let mut state = CaptureState::new();
    let ch = client_hello(&[0x1301, 0x1302], &[0x11ec, 0x001d]);
    let sh = server_hello(0x1302, 0x11ec);
    assert!(state.process_packet(&ipv4_frame(CLIENT, SERVER, 50000, 443, 1, &ch), false).is_ok());
    assert!(state.process_packet(&ipv4_frame(SERVER, CLIENT, 443, 50000, 9, &sh), false).is_ok());

    let offered = state.tls_ciphers.get(&"10.0.0.1:50000".to_string()).expect("client ciphers");
    assert_eq!(offered.to_vec(), vec![0x1301, 0x1302]);
    let shares = state.keyshare_groups.get(&"10.0.0.1:50000".to_string()).expect("client groups");
    assert_eq!(shares.to_vec(), vec![0x11ec, 0x001d]);
    let chosen = state.tls_ciphers.get(&"10.0.0.2:443".to_string()).expect("server cipher");
    assert_eq!(chosen.to_vec(), vec![0x1302]);
    let key = TlsSessionKey {
        src_ip: IpAddress::V4(CLIENT),
        src_port: 50000,
        dst_ip: IpAddress::V4(SERVER),
        dst_port: 443,
    };
    assert_eq!(state.tls_sessions.get(&key), Some(&0x11ec));
    assert_eq!(key.to_display_string(), "10.0.0.2:443->10.0.0.1:50000");

    let summary = match summarize(&state, &kex_table(), &group_table()) {
        Ok(s) => s,
        Err(_) => panic!("IPv4 endpoints read back"),
    };
    assert_eq!(summary.tls_hosts_count, 2);
    assert_eq!(summary.tls_sessions_count, 1);
    assert_eq!(summary.tls_pqc_supported_count, 1);
    assert_eq!(summary.total_count, 2);
    assert_eq!(summary.pqc_count, 2);
    assert_eq!(summary.tls_hosts_pqc.get(&"10.0.0.1".to_string()).map(|s| s.as_str()), Some(PQC_SUPPORTED));
    assert_eq!(summary.tls_hosts_pqc.get(&"10.0.0.2".to_string()).map(|s| s.as_str()), Some(PQC_SUPPORTED));
    let caps = summary.tls_host_capabilities.get(&"10.0.0.1".to_string()).expect("client groups");
    assert_eq!(caps.len(), 2);
    assert_eq!(caps.get(0).name, "X25519MLKEM768");
    assert_eq!(caps.get(0).pqc_status, "Hybrid");
    assert_eq!(caps.get(1).name, "x25519");
    assert_eq!(caps.get(1).pqc_status, "Not PQC safe");
    assert_eq!(caps.get(1).description, "x25519 group");
    let sessions = summary.tls_sessions_results.get(&"10.0.0.1".to_string()).expect("session");
    assert_eq!(sessions.len(), 1);
    let s = sessions.get(0);
    assert_eq!(s.source, "10.0.0.1");
    assert_eq!(s.source_port, 50000);
    assert_eq!(s.destination, "10.0.0.2");
    assert_eq!(s.destination_port, 443);
    assert_eq!(s.algorithm, "X25519MLKEM768");
    assert_eq!(s.pqc_status, "Hybrid");
}

#[test]
fn host_seen_only_offering_cipher_suites_is_tls_1_2() {
    let mut state = CaptureState::new();
    let ch = client_hello(&[0xc02f], &[]);
    assert!(state.process_packet(&ipv4_frame(CLIENT, SERVER, 40000, 443, 1, &ch), false).is_ok());
    let summary = match summarize(&state, &kex_table(), &group_table()) {
        Ok(s) => s,
        Err(_) => panic!("readable"),
    };
    assert_eq!(summary.tls_hosts_count, 1);
    assert_eq!(summary.total_count, 0);
    assert_eq!(summary.tls_hosts_pqc.get(&"10.0.0.1".to_string()).map(|s| s.as_str()), Some("TLS 1.2"));
}

#[test]
fn host_offering_only_classical_groups_has_no_support() {
    let mut state = CaptureState::new();
    let ch = client_hello(&[0x1301], &[0x001d, 0x9999]);
    assert!(state.process_packet(&ipv4_frame(CLIENT, SERVER, 40000, 443, 1, &ch), false).is_ok());
    let summary = match summarize(&state, &kex_table(), &group_table()) {
        Ok(s) => s,
        Err(_) => panic!("readable"),
    };
    assert_eq!(summary.pqc_count, 0);
    assert_eq!(summary.tls_hosts_pqc.get(&"10.0.0.1".to_string()).map(|s| s.as_str()), Some("No Support"));
    let caps = summary.tls_host_capabilities.get(&"10.0.0.1".to_string()).expect("caps");
    assert_eq!(caps.len(), 1);
}

#[test]
fn ssh_negotiation_is_followed_and_summarised() {
    let mut state = CaptureState::new();
    let c = kexinit("mlkem768-sha256,sntrup761x25519-sha512,curve25519-sha256");
    let s = kexinit("curve25519-sha256,sntrup761x25519-sha512");
    assert!(state.process_packet(&ipv4_frame(CLIENT, SERVER, 51000, 22, 1, &c), false).is_ok());
    assert!(state.process_packet(&ipv4_frame(SERVER, CLIENT, 22, 51000, 1, &s), false).is_ok());
    assert_eq!(state.ssh_sessions.len(), 1);
    let (flow, session) = state.ssh_sessions.entry_at(0);
    assert_eq!(flow.src(), "10.0.0.1:51000");
    assert_eq!(flow.dst(), "10.0.0.2:22");
    assert_eq!(session.negotiated().map(|n| n.kex()), Some("sntrup761x25519-sha512"));

    let summary = match summarize(&state, &kex_table(), &group_table()) {
        Ok(s) => s,
        Err(_) => panic!("readable"),
    };
    assert_eq!(summary.ssh_hosts_count, 2);
    assert_eq!(summary.ssh_sessions_count, 1);
    assert_eq!(summary.ssh_pqc_supported_count, 0);
    assert_eq!(summary.total_count, 2);
    assert_eq!(summary.pqc_count, 2);
    assert_eq!(summary.ssh_hosts_pqc.get(&"10.0.0.1".to_string()).map(|s| s.as_str()), Some(PQC_SUPPORTED));
    let caps = summary.ssh_host_capabilities.get(&"10.0.0.1".to_string()).expect("caps");
    assert_eq!(caps.len(), 3);
    assert_eq!(caps.get(0).name, "mlkem768-sha256");
    assert_eq!(caps.get(0).pqc_status, PQC_SUPPORTED);
    assert_eq!(caps.get(0).description, "-");
    assert_eq!(caps.get(0).link, "h");
    assert_eq!(caps.get(1).pqc_status, "Hybrid");
    assert_eq!(caps.get(2).pqc_status, "Not PQC Safe");
    let sessions = summary.ssh_sessions_results.get(&"10.0.0.1".to_string()).expect("session");
    assert_eq!(sessions.len(), 1);
    let r = sessions.get(0);
    assert_eq!(r.source_port, 51000);
    assert_eq!(r.destination, "10.0.0.2");
    assert_eq!(r.destination_port, 22);
    assert_eq!(r.algorithm, "sntrup761x25519-sha512");
    assert_eq!(r.pqc_status, "Hybrid");
}

#[test]
fn ssh_session_over_ipv6_is_summarised_with_bracketed_endpoints() {
    let mut a = [0u8; 16];
    a[0] = 0x20;
    a[1] = 0x01;
    a[15] = 1;
    let mut b = a;
    b[15] = 2;
    let mut state = CaptureState::new();
    let c = kexinit("mlkem768-sha256");
    assert!(state.process_packet(&ipv6_frame(a, b, 51000, 22, 1, &c), false).is_ok());
    assert!(state.process_packet(&ipv6_frame(b, a, 22, 51000, 1, &c), false).is_ok());
    let (flow, _) = state.ssh_sessions.entry_at(0);
    assert_eq!(flow.src(), "[2001::1]:51000");
    let summary = match summarize(&state, &kex_table(), &group_table()) {
        Ok(s) => s,
        Err(_) => panic!("bracketed endpoints read back"),
    };
    assert_eq!(summary.ssh_pqc_supported_count, 1);
    let sessions = summary.ssh_sessions_results.get(&"2001::1".to_string()).expect("session");
    assert_eq!(sessions.get(0).destination, "2001::2");
    assert_eq!(sessions.get(0).pqc_status, PQC_SUPPORTED);
}

#[test]
fn tls_key_of_an_ipv6_client_cannot_be_summarised() {
    let mut a = [0u8; 16];
    a[15] = 1;
    let mut b = [0u8; 16];
    b[15] = 2;
    let mut state = CaptureState::new();
    let ch = client_hello(&[0x1301], &[0x11ec]);
    assert!(state.process_packet(&ipv6_frame(a, b, 40000, 443, 1, &ch), false).is_ok());
    assert!(state.tls_ciphers.get(&"::1:40000".to_string()).is_some());
    match summarize(&state, &kex_table(), &group_table()) {
        Err(SummaryError::UnreadableEndpoint) => {}
        Ok(_) => panic!("an unbracketed IPv6 key does not read as an endpoint"),
    }
}

#[test]
fn truncated_client_hello_is_reported() {
    // Cipher-suite length 3 running exactly to the end of the record.
    let mut p = vec![0x16, 0x03, 0x01, 0, 0, 0x01, 0, 0, 0, 0x03, 0x03];
    p.extend_from_slice(&[0u8; 32]);
    p.push(0);
    p.extend_from_slice(&[0, 3, 0x13, 0x01, 0x13]);
    let mut state = CaptureState::new();
    assert_eq!(
        state.process_packet(&ipv4_frame(CLIENT, SERVER, 1, 443, 1, &p), false),
        Err(CaptureError::TruncatedHello)
    );
}

#[test]
fn non_tcp_and_short_payloads_change_nothing() {
    let mut state = CaptureState::new();
    let frame = ipv4_frame(CLIENT, SERVER, 1, 2, 3, b"abc");
    assert!(state.process_packet(&frame, false).is_ok());
    assert_eq!(state.tls_ciphers.len(), 0);
    assert_eq!(state.ssh_sessions.len(), 0);
    assert!(state.process_packet(&[1, 2, 3], false).is_ok());
}

#[test]
fn readvertised_method_moves_to_the_end_of_a_hosts_list() {
    let mut state = CaptureState::new();
    let first = kexinit("x,y");
    let second = kexinit("x,z");
    assert!(state.process_packet(&ipv4_frame(CLIENT, SERVER, 50001, 22, 1, &first), false).is_ok());
    assert!(state.process_packet(&ipv4_frame(CLIENT, SERVER, 50002, 22, 1, &second), false).is_ok());
    let caps = state.host_caps.get(&"10.0.0.1".to_string()).expect("host recorded");
    assert_eq!(
        caps.supported_kex_names(),
        vec!["y".to_string(), "x".to_string(), "z".to_string()]
    );
    assert_eq!(caps.supported_kex().len(), 3);
}

#[test]
fn negotiated_method_stays_fixed_after_later_kexinits() {
    let mut state = CaptureState::new();
    let c = kexinit("mlkem768-sha256,curve25519-sha256");
    let s = kexinit("curve25519-sha256");
    let later = kexinit("mlkem768-sha256");
    assert!(state.process_packet(&ipv4_frame(CLIENT, SERVER, 51000, 22, 1, &c), false).is_ok());
    assert!(state.process_packet(&ipv4_frame(SERVER, CLIENT, 22, 51000, 1, &s), false).is_ok());
    assert!(state.process_packet(&ipv4_frame(SERVER, CLIENT, 22, 51000, 500, &later), false).is_ok());
    assert!(state.process_packet(&ipv4_frame(CLIENT, SERVER, 51000, 22, 500, &later), false).is_ok());
    let (_, session) = state.ssh_sessions.entry_at(0);
    assert_eq!(session.negotiated().map(|n| n.kex()), Some("curve25519-sha256"));
}
