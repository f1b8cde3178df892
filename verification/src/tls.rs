//! Following TLS handshakes: which cipher suites and key-share groups each
//! endpoint offers, and which group each session settles on.

use vstd::prelude::*;
use crate::ip::{IpAddress, ip_text};
use crate::table::{SameKey, Table, IdSet};
use crate::text::{push_char, push_numeral, decimal};
use crate::tls_wire::{
    client_hello_overreads, client_hello_result, parse_server_hello_v3, parse_ssl_v3_client_hello,
    server_hello_overreads, server_hello_result,
};

verus! {

/// The endpoints of a TLS session, oriented from the client (the receiver of
/// the ServerHello) to the server.
#[derive(Clone, Copy, Debug, PartialEq, Eq, Hash)]
pub struct TlsSessionKey {
    pub src_ip: IpAddress,
    pub src_port: u16,
    pub dst_ip: IpAddress,
    pub dst_port: u16,
}

impl View for TlsSessionKey {
    type V = (Seq<u8>, u16, Seq<u8>, u16);

    open spec fn view(&self) -> (Seq<u8>, u16, Seq<u8>, u16) {
        (self.src_ip@, self.src_port, self.dst_ip@, self.dst_port)
    }
}

impl SameKey for TlsSessionKey {
    fn same_key(&self, other: &Self) -> (b: bool) {
        proof {
            crate::ip::lemma_ip_view_injective(self.src_ip, other.src_ip);
            crate::ip::lemma_ip_view_injective(self.dst_ip, other.dst_ip);
        }
        self.src_port == other.src_port && self.dst_port == other.dst_port && self.src_ip.same_as(
            &other.src_ip,
        ) && self.dst_ip.same_as(&other.dst_ip)
    }
}

impl TlsSessionKey {
    /// `server:port->client:port`, the server's endpoint first.
    pub fn to_display_string(&self) -> (s: String)
        ensures
            s@ == ip_text(self.dst_ip@) + seq![':'] + decimal(self.dst_port as nat) + seq!['-', '>']
                + ip_text(self.src_ip@) + seq![':'] + decimal(self.src_port as nat),
    {
        let mut s = self.dst_ip.to_text();
        push_char(&mut s, ':');
        push_numeral(&mut s, self.dst_port as u64, 10);
        push_char(&mut s, '-');
        push_char(&mut s, '>');
        let src = self.src_ip.to_text();
        s.append(src.as_str());
        push_char(&mut s, ':');
        push_numeral(&mut s, self.src_port as u64, 10);
        assert(s@ =~= ip_text(self.dst_ip@) + seq![':'] + decimal(self.dst_port as nat) + seq![
            '-',
            '>',
        ] + ip_text(self.src_ip@) + seq![':'] + decimal(self.src_port as nat));
        s
    }
}

/// `address:port` of an endpoint as TLS offers are filed (no brackets
/// around IPv6 addresses).
pub open spec fn endpoint_text(ip: Seq<u8>, port: u16) -> Seq<char> {
    ip_text(ip) + seq![':'] + decimal(port as nat)
}

fn endpoint_string(ip: &IpAddress, port: u16) -> (s: String)
    ensures
        s@ == endpoint_text(ip@, port),
{
    let mut s = ip.to_text();
    push_char(&mut s, ':');
    push_numeral(&mut s, port as u64, 10);
    assert(s@ =~= endpoint_text(ip@, port));
    s
}

/// The identifiers recorded for `key`, none when it is unknown.
pub open spec fn ids_of(m: Map<Seq<char>, Set<u16>>, key: Seq<char>) -> Set<u16> {
    if m.contains_key(key) {
        m[key]
    } else {
        Set::empty()
    }
}

/// Adds `ids` to the set of `key`; an empty list leaves the table as it is
/// (no entry is made for `key`).
pub open spec fn add_ids(m: Map<Seq<char>, Set<u16>>, key: Seq<char>, ids: Seq<u16>) -> Map<Seq<char>, Set<u16>> {
    if ids.len() == 0 {
        m
    } else {
        m.insert(key, ids_of(m, key) + ids.to_set())
    }
}

fn add_ids_exec(table: &mut Table<String, IdSet>, key: &String, ids: &[u16])
    ensures
        final(table)@ == add_ids(old(table)@, key@, ids@),
{
    if ids.len() == 0 {
        return;
    }
    let prev = table.replace(key.clone(), IdSet::new());
    let mut set = match prev {
        Some(s) => s,
        None => IdSet::new(),
    };
    let ghost start = ids_of(old(table)@, key@);
    let mut i: usize = 0;
    while i < ids.len()
        invariant
            i <= ids@.len(),
            set@ == start + ids@.take(i as int).to_set(),
        decreases ids@.len() - i,
    {
        set.insert(ids[i]);
        proof {
            ids@.take(i as int).lemma_push_to_set_commute(ids@[i as int]);
            assert(ids@.take(i + 1) =~= ids@.take(i as int).push(ids@[i as int]));
        }
        i = i + 1;
        assert(set@ =~= start + ids@.take(i as int).to_set());
    }
    assert(ids@.take(ids@.len() as int) =~= ids@);
    table.put(key.clone(), set);
}

/// The TLS tables: offered cipher suites and key-share groups per
/// `address:port`, and the group chosen per session.
pub type TlsView = (Map<Seq<char>, Set<u16>>, Map<Seq<char>, Set<u16>>, Map<(Seq<u8>, u16, Seq<u8>, u16), u16>);

/// The TLS tables after a handshake record sent from `src:sport` to
/// `dst:dport`: a ClientHello adds the sender's offered cipher suites and
/// key-share groups; a ServerHello adds the chosen suite and group to the
/// sender's entries and records the group for the session. Records that do
/// not parse change nothing.
pub open spec fn tls_effect(t: TlsView, src: Seq<u8>, dst: Seq<u8>, sport: u16, dport: u16, payload: Seq<u8>) -> TlsView {
    let key = endpoint_text(src, sport);
    if payload[5] == 0x01 {
        match client_hello_result(payload) {
            Ok((ciphers, groups)) => (add_ids(t.0, key, ciphers), add_ids(t.1, key, groups), t.2),
            Err(_) => t,
        }
    } else if payload[5] == 0x02 {
        match server_hello_result(payload) {
            Ok((cipher, group)) => (
                add_ids(t.0, key, seq![cipher]),
                add_ids(t.1, key, seq![group]),
                t.2.insert((dst, dport, src, sport), group),
            ),
            Err(_) => t,
        }
    } else {
        t
    }
}

/// Reading a handshake record would go past its end.
pub open spec fn hello_overreads(payload: Seq<u8>) -> bool {
    (payload[5] == 0x01 && client_hello_overreads(payload)) || (payload[5] == 0x02
        && server_hello_overreads(payload))
}

/// Follows a TLS handshake record sent from `src:sport` to `dst:dport`.
pub fn process_ssl_hello(
    src: &IpAddress,
    dst: &IpAddress,
    sport: u16,
    dport: u16,
    payload: &[u8],
    tls_ciphers: &mut Table<String, IdSet>,
    keyshare_groups: &mut Table<String, IdSet>,
    tls_sessions: &mut Table<TlsSessionKey, u16>,
)
    requires
        payload@.len() > 5,
        !hello_overreads(payload@),
    ensures
        (final(tls_ciphers)@, final(keyshare_groups)@, final(tls_sessions)@) == tls_effect(
            (old(tls_ciphers)@, old(keyshare_groups)@, old(tls_sessions)@),
            src@,
            dst@,
            sport,
            dport,
            payload@,
        ),
{
    let handshake_type = payload[5];
    let key = endpoint_string(src, sport);
    if handshake_type == 0x01 {
        match parse_ssl_v3_client_hello(payload) {
            Ok(result) => {
                add_ids_exec(tls_ciphers, &key, result.ciphers.as_slice());
                add_ids_exec(keyshare_groups, &key, result.keyshare_groups.as_slice());
            },
            Err(_) => {},
        }
    } else if handshake_type == 0x02 {
        match parse_server_hello_v3(payload) {
            Ok(result) => {
                let session_key = TlsSessionKey {
                    src_ip: *dst,
                    src_port: dport,
                    dst_ip: *src,
                    dst_port: sport,
                };
                tls_sessions.put(session_key, result.keyshare);
                let mut group: Vec<u16> = Vec::new();
                group.push(result.keyshare);
                add_ids_exec(keyshare_groups, &key, group.as_slice());
                add_ids_exec(tls_ciphers, &key, result.ciphers.as_slice());
                assert(group@ =~= seq![result.keyshare]);
            },
            Err(_) => {},
        }
    }
}

} // verus!
