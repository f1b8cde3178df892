//! SSH key exchange: reading SSH_MSG_KEXINIT messages, following each
//! connection's two KEXINITs to the negotiated key exchange method, and
//! recording the methods each host advertises.

use vstd::prelude::*;
use vstd::utf8::{valid_utf8, decode_utf8};
use linked_hash_set::LinkedHashSet;
use crate::text::{push_char, push_numeral, decimal, split_commas, split_on_commas, strings_view, decode_utf8_bytes};
use crate::table::{SameKey, Table};

verus! {

#[verifier::external_type_specification]
#[verifier::external_body]
#[verifier::reject_recursive_types(T)]
#[verifier::reject_recursive_types(S)]
pub struct ExLinkedHashSet<T, S>(LinkedHashSet<T, S>);

/// The items of a set of names, in the set's iteration order.
pub uninterp spec fn linked_set_items(set: LinkedHashSet<String>) -> Seq<Seq<char>>;

/// The items after inserting `x`: it is placed last whether or not it was
/// present before.
pub open spec fn linked_insert(items: Seq<Seq<char>>, x: Seq<char>) -> Seq<Seq<char>> {
    without_name(items, x).push(x)
}

/// The items other than `x`, in their order.
pub open spec fn without_name(items: Seq<Seq<char>>, x: Seq<char>) -> Seq<Seq<char>> {
    items.filter(|y: Seq<char>| y != x)
}

/// The items after inserting each of `names` in turn.
pub open spec fn linked_insert_all(items: Seq<Seq<char>>, names: Seq<Seq<char>>) -> Seq<Seq<char>>
    decreases names.len(),
{
    if names.len() == 0 {
        items
    } else {
        linked_insert_all(linked_insert(items, names[0]), names.drop_first())
    }
}

/// An empty set of names (`LinkedHashSet::new`).
#[verifier::external_body]
fn new_name_set() -> (set: LinkedHashSet<String>)
    ensures
        linked_set_items(set) == Seq::<Seq<char>>::empty(),
{
    LinkedHashSet::new()
}

/// Inserts a name (`LinkedHashSet::insert`), which moves it to the end of the
/// iteration order when it is already present.
#[verifier::external_body]
fn name_set_insert(set: &mut LinkedHashSet<String>, name: String)
    ensures
        linked_set_items(*final(set)) == linked_insert(linked_set_items(*old(set)), name@),
{
    set.insert(name);
}

/// The names of a set in iteration order (`LinkedHashSet::iter`), copied out.
#[verifier::external_body]
fn name_set_items(set: &LinkedHashSet<String>) -> (names: Vec<String>)
    ensures
        strings_view(names@) == linked_set_items(*set),
{
    set.iter().cloned().collect()
}

/// Source and destination endpoints (`address:port`) of an SSH connection.
#[derive(Clone, Debug, PartialEq, Eq, Hash)]
pub struct FlowKey {
    src: String,
    dst: String,
}

impl View for FlowKey {
    type V = (Seq<char>, Seq<char>);

    closed spec fn view(&self) -> (Seq<char>, Seq<char>) {
        (self.src@, self.dst@)
    }
}

impl SameKey for FlowKey {
    fn same_key(&self, other: &Self) -> (b: bool) {
        self.src == other.src && self.dst == other.dst
    }
}

impl FlowKey {
    /// The endpoint that sent the first KEXINIT of the connection.
    pub fn src(&self) -> (s: &str)
        ensures
            s@ == self@.0,
    {
        self.src.as_str()
    }

    /// The other endpoint.
    pub fn dst(&self) -> (s: &str)
        ensures
            s@ == self@.1,
    {
        self.dst.as_str()
    }
}

/// The key exchange methods of one SSH_MSG_KEXINIT, in preference order.
#[derive(Debug)]
pub struct KexInit {
    kex_algorithms: Vec<String>,
}

impl View for KexInit {
    type V = Seq<Seq<char>>;

    closed spec fn view(&self) -> Seq<Seq<char>> {
        strings_view(self.kex_algorithms@)
    }
}

impl KexInit {
    /// The key exchange methods, in preference order.
    pub fn kex_algorithms(&self) -> (v: &Vec<String>)
        ensures
            strings_view(v@) == self@,
    {
        &self.kex_algorithms
    }
}

/// The key exchange method a connection settled on.
#[derive(Debug)]
pub struct NegotiatedAlgorithms {
    kex: String,
}

impl View for NegotiatedAlgorithms {
    type V = Seq<char>;

    closed spec fn view(&self) -> Seq<char> {
        self.kex@
    }
}

impl NegotiatedAlgorithms {
    /// The negotiated key exchange method.
    pub fn kex(&self) -> (s: &str)
        ensures
            s@ == self@,
    {
        self.kex.as_str()
    }
}

/// The view of an optional value.
pub open spec fn opt_view<T: View>(o: Option<T>) -> Option<T::V> {
    match o {
        Some(x) => Some(x@),
        None => None,
    }
}

/// What has been seen of one SSH connection: the client's and the server's
/// KEXINIT, and the negotiated method once both are known.
#[derive(Debug)]
pub struct SshSession {
    client_kexinit: Option<KexInit>,
    server_kexinit: Option<KexInit>,
    negotiated: Option<NegotiatedAlgorithms>,
}

impl View for SshSession {
    type V = (Option<Seq<Seq<char>>>, Option<Seq<Seq<char>>>, Option<Seq<char>>);

    closed spec fn view(&self) -> (Option<Seq<Seq<char>>>, Option<Seq<Seq<char>>>, Option<Seq<char>>) {
        (opt_view(self.client_kexinit), opt_view(self.server_kexinit), opt_view(self.negotiated))
    }
}

impl SshSession {
    /// A connection of which nothing has been seen yet.
    pub fn new() -> (s: Self)
        ensures
            s@ == (None::<Seq<Seq<char>>>, None::<Seq<Seq<char>>>, None::<Seq<char>>),
    {
        SshSession { client_kexinit: None, server_kexinit: None, negotiated: None }
    }

    /// The negotiated key exchange, once both KEXINITs have been seen and
    /// they share a method.
    pub fn negotiated(&self) -> (n: Option<&NegotiatedAlgorithms>)
        ensures
            match n {
                Some(a) => self@.2 == Some(a@),
                None => self@.2 is None,
            },
    {
        self.negotiated.as_ref()
    }
}

/// The key exchange methods one host has advertised, most recently
/// advertised last.
pub struct HostCapabilities {
    supported_kex: LinkedHashSet<String>,
}

impl View for HostCapabilities {
    type V = Seq<Seq<char>>;

    closed spec fn view(&self) -> Seq<Seq<char>> {
        linked_set_items(self.supported_kex)
    }
}

impl HostCapabilities {
    /// A host that has advertised nothing.
    pub fn new() -> (c: Self)
        ensures
            c@ == Seq::<Seq<char>>::empty(),
    {
        HostCapabilities { supported_kex: new_name_set() }
    }

    /// The set of advertised key exchange methods.
    pub fn supported_kex(&self) -> (s: &LinkedHashSet<String>)
        ensures
            linked_set_items(*s) == self@,
    {
        &self.supported_kex
    }

    /// The advertised key exchange methods in the set's order.
    pub fn supported_kex_names(&self) -> (v: Vec<String>)
        ensures
            strings_view(v@) == self@,
    {
        name_set_items(&self.supported_kex)
    }
}

/// `address:port`, with an IPv6 address (one holding a colon) in brackets.
pub open spec fn socket_text(ip: Seq<char>, port: u16) -> Seq<char> {
    if ip.contains(':') {
        seq!['['] + ip + seq![']', ':'] + decimal(port as nat)
    } else {
        ip + seq![':'] + decimal(port as nat)
    }
}

/// Formats an endpoint as `address:port`, bracketing IPv6 addresses.
pub fn format_socket_addr(ip: &str, port: u16) -> (s: String)
    ensures
        s@ == socket_text(ip@, port),
{
    let mut has_colon = false;
    for c in it: ip.chars()
        invariant
            it.seq() == ip@,
            has_colon == ip@.take(it.index() as int).contains(':'),
    {
        proof {
            let pre = ip@.take(it.index() as int);
            assert(ip@.skip(it.index() as int)[0] == c);
            assert(ip@[it.index() as int] == c);
            let post = ip@.take(it.index() + 1);
            assert(post =~= pre.push(c));
            if pre.contains(':') {
                let w = choose|w: int| 0 <= w < pre.len() && pre[w] == ':';
                assert(post[w] == ':');
            }
            if post.contains(':') && c != ':' {
                let w = choose|w: int| 0 <= w < post.len() && post[w] == ':';
                assert(pre[w] == ':');
            }
            if c == ':' {
                assert(post[pre.len() as int] == ':');
            }
        }
        if c == ':' {
            has_colon = true;
        }
    }
    assert(ip@.take(ip@.len() as int) =~= ip@);
    let mut s = String::new();
    if has_colon {
        push_char(&mut s, '[');
        s.append(ip);
        push_char(&mut s, ']');
    } else {
        s.append(ip);
    }
    push_char(&mut s, ':');
    push_numeral(&mut s, port as u64, 10);
    assert(s@ =~= socket_text(ip@, port));
    s
}

/// The SSH message number of SSH_MSG_KEXINIT.
pub const SSH_MSG_KEXINIT: u8 = 20;

/// The big-endian 32-bit field starting at `d[i]`.
pub open spec fn u32_at(d: Seq<u8>, i: int) -> int {
    crate::wire::be32(d[i], d[i + 1], d[i + 2], d[i + 3])
}

/// The name-list (RFC 4251: a 32-bit length, then comma-separated UTF-8
/// names) starting at `d[pos]`, with the offset just past it.
pub open spec fn name_list_at(d: Seq<u8>, pos: int) -> Option<(Seq<Seq<char>>, int)> {
    if pos + 4 > d.len() {
        None
    } else {
        let end = pos + 4 + u32_at(d, pos);
        if end > d.len() || !valid_utf8(d.subrange(pos + 4, end)) {
            None
        } else {
            Some((split_commas(decode_utf8(d.subrange(pos + 4, end))), end))
        }
    }
}

/// `count` consecutive name-lists can be read starting at `d[pos]`.
pub open spec fn name_lists_follow(d: Seq<u8>, pos: int, count: nat) -> bool
    decreases count,
{
    if count == 0 {
        true
    } else {
        match name_list_at(d, pos) {
            Some((_, next)) => name_lists_follow(d, next, (count - 1) as nat),
            None => false,
        }
    }
}

/// The key exchange methods of an SSH packet holding SSH_MSG_KEXINIT
/// (packet length, padding length, message number 20, a 16-byte cookie, then
/// ten name-lists of which the first lists the key exchange methods).
pub open spec fn kexinit_names(d: Seq<u8>) -> Option<Seq<Seq<char>>> {
    if d.len() < 22 || d[5] != SSH_MSG_KEXINIT {
        None
    } else {
        match name_list_at(d, 22) {
            Some((kex, next)) => if name_lists_follow(d, next, 9) {
                Some(kex)
            } else {
                None
            },
            None => None,
        }
    }
}

/// Reads the big-endian `u32` at `data[pos]`, with the offset after it.
pub fn read_u32(data: &[u8], pos: usize) -> (r: Option<(u32, usize)>)
    requires
        pos <= data@.len(),
    ensures
        pos + 4 > data@.len() ==> r is None,
        pos + 4 <= data@.len() ==> r == Some((u32_at(data@, pos as int) as u32, (pos + 4) as usize)),
{
    if data.len() - pos < 4 {
        return None;
    }
    let b0 = data[pos];
    let b1 = data[pos + 1];
    let b2 = data[pos + 2];
    let b3 = data[pos + 3];
    let v: u32 = ((b0 as u32) << 24) | ((b1 as u32) << 16) | ((b2 as u32) << 8) | (b3 as u32);
    assert(v == ((b0 as int * 256 + b1 as int) * 256 + b2 as int) * 256 + b3 as int) by (bit_vector)
        requires
            v == ((b0 as u32) << 24) | ((b1 as u32) << 16) | ((b2 as u32) << 8) | (b3 as u32),
    ;
    Some((v, pos + 4))
}

/// Reads the name-list at `data[pos]`, with the offset after it.
pub fn read_name_list_owned(data: &[u8], pos: usize) -> (r: Option<(Vec<String>, usize)>)
    requires
        pos <= data@.len(),
    ensures
        match name_list_at(data@, pos as int) {
            Some((names, next)) => r matches Some((v, n)) && strings_view(v@) == names && n
                == next,
            None => r is None,
        },
{
    let (len, start) = match read_u32(data, pos) {
        Some(x) => x,
        None => return None,
    };
    let len = len as usize;
    if data.len() - start < len {
        return None;
    }
    let list_bytes = &data[start..start + len];
    let list_str = match decode_utf8_bytes(list_bytes) {
        Some(s) => s,
        None => return None,
    };
    Some((split_on_commas(list_str), start + len))
}

/// Reads the key exchange methods of an SSH_MSG_KEXINIT packet.
pub fn parse_ssh_kexinit(payload: &[u8]) -> (k: Option<KexInit>)
    ensures
        opt_view(k) == kexinit_names(payload@),
{
    if payload.len() < 6 || payload[5] != SSH_MSG_KEXINIT {
        return None;
    }
    if payload.len() - 6 < 16 {
        return None;
    }
    let (kex_algorithms, mut pos) = match read_name_list_owned(payload, 22) {
        Some(x) => x,
        None => return None,
    };
    let ghost first_end = pos as int;
    let ghost kex = strings_view(kex_algorithms@);
    assert(kexinit_names(payload@) == if name_lists_follow(payload@, first_end, 9) {
        Some(kex)
    } else {
        None
    });
    let mut i: usize = 0;
    while i < 9
        invariant
            i <= 9,
            kex == strings_view(kex_algorithms@),
            kexinit_names(payload@) == if name_lists_follow(payload@, first_end, 9) {
                Some(kex)
            } else {
                None
            },
            pos <= payload@.len(),
            name_lists_follow(payload@, first_end, 9) == name_lists_follow(
                payload@,
                pos as int,
                (9 - i) as nat,
            ),
        decreases 9 - i,
    {
        match read_name_list_owned(payload, pos) {
            Some((_, next)) => {
                pos = next;
            },
            None => return None,
        }
        i = i + 1;
    }
    Some(KexInit { kex_algorithms })
}

/// The first of the client's methods (in its preference order) that the
/// server also offers.
pub open spec fn first_common(client: Seq<Seq<char>>, server: Seq<Seq<char>>) -> Option<Seq<char>>
    decreases client.len(),
{
    if client.len() == 0 {
        None
    } else if server.contains(client[0]) {
        Some(client[0])
    } else {
        first_common(client.drop_first(), server)
    }
}

fn contains_name(list: &[String], name: &String) -> (b: bool)
    ensures
        b == strings_view(list@).contains(name@),
{
    let mut i: usize = 0;
    while i < list.len()
        invariant
            i <= list@.len(),
            forall|j: int| 0 <= j < i ==> list@[j]@ != name@,
        decreases list@.len() - i,
    {
        if list[i] == *name {
            assert(strings_view(list@)[i as int] == name@);
            return true;
        }
        i = i + 1;
    }
    proof {
        if strings_view(list@).contains(name@) {
            let w = choose|w: int| 0 <= w < strings_view(list@).len() && strings_view(list@)[w]
                == name@;
            assert(list@[w]@ == name@);
        }
    }
    false
}

/// Negotiates the key exchange method as RFC 4253 prescribes: the first
/// method in the client's list that the server supports.
pub fn negotiate(client: &[String], server: &[String]) -> (r: Option<String>)
    ensures
        opt_view(r) == first_common(strings_view(client@), strings_view(server@)),
{
    let ghost c = strings_view(client@);
    let ghost sv = strings_view(server@);
    let mut i: usize = 0;
    assert(c.skip(0) =~= c);
    while i < client.len()
        invariant
            i <= client@.len(),
            c == strings_view(client@),
            sv == strings_view(server@),
            first_common(c, sv) == first_common(c.skip(i as int), sv),
        decreases client@.len() - i,
    {
        proof {
            assert(c.skip(i as int)[0] == c[i as int]);
            assert(c.skip(i as int).drop_first() =~= c.skip(i + 1));
        }
        if contains_name(server, &client[i]) {
            return Some(client[i].clone());
        }
        i = i + 1;
    }
    proof {
        assert(c.skip(i as int).len() == 0);
    }
    None
}

/// The methods recorded for `host`, none when it is unknown.
pub open spec fn caps_of(caps: Map<Seq<char>, Seq<Seq<char>>>, host: Seq<char>) -> Seq<Seq<char>> {
    if caps.contains_key(host) {
        caps[host]
    } else {
        Seq::empty()
    }
}

/// Records that `host` advertised the methods of `kex`.
pub fn update_host_caps(host_caps: &mut Table<String, HostCapabilities>, host: &str, kex: &KexInit)
    ensures
        final(host_caps)@ == old(host_caps)@.insert(
            host@,
            linked_insert_all(caps_of(old(host_caps)@, host@), kex@),
        ),
{
    let key = host.to_owned();
    let prev = host_caps.replace(key.clone(), HostCapabilities::new());
    let mut entry = match prev {
        Some(c) => c,
        None => HostCapabilities::new(),
    };
    let ghost start = caps_of(old(host_caps)@, host@);
    assert(entry@ == start);
    let names = &kex.kex_algorithms;
    assert(kex@.skip(0) =~= kex@);
    let mut i: usize = 0;
    while i < names.len()
        invariant
            i <= names@.len(),
            strings_view(names@) == kex@,
            linked_insert_all(start, kex@) == linked_insert_all(entry@, kex@.skip(i as int)),
        decreases names@.len() - i,
    {
        proof {
            assert(kex@.skip(i as int)[0] == names@[i as int]@);
            assert(kex@.skip(i as int).drop_first() =~= kex@.skip(i + 1));
        }
        name_set_insert(&mut entry.supported_kex, names[i].clone());
        i = i + 1;
    }
    assert(kex@.skip(i as int) =~= Seq::<Seq<char>>::empty());
    host_caps.put(key, entry);
}

/// The recorded session of `key`, or a fresh one.
pub open spec fn session_or_new(
    sessions: Map<(Seq<char>, Seq<char>), (Option<Seq<Seq<char>>>, Option<Seq<Seq<char>>>, Option<Seq<char>>)>,
    key: (Seq<char>, Seq<char>),
) -> (Option<Seq<Seq<char>>>, Option<Seq<Seq<char>>>, Option<Seq<char>>) {
    if sessions.contains_key(key) {
        sessions[key]
    } else {
        (None, None, None)
    }
}

/// A KEXINIT sent in the given direction is the first one seen in that
/// direction: the client's when `forward`, else the server's.
pub open spec fn records_kexinit(
    s: (Option<Seq<Seq<char>>>, Option<Seq<Seq<char>>>, Option<Seq<char>>),
    forward: bool,
) -> bool {
    (forward && s.0 is None) || (!forward && s.1 is None)
}

/// A session after a KEXINIT listing `kex` in the given direction: the first
/// KEXINIT of each direction is kept, and once both are known and nothing
/// has been negotiated yet, the negotiated method is fixed.
pub open spec fn ssh_session_after(
    s: (Option<Seq<Seq<char>>>, Option<Seq<Seq<char>>>, Option<Seq<char>>),
    forward: bool,
    kex: Seq<Seq<char>>,
) -> (Option<Seq<Seq<char>>>, Option<Seq<Seq<char>>>, Option<Seq<char>>) {
    let s1 = if forward && s.0 is None {
        (Some(kex), s.1, s.2)
    } else if !forward && s.1 is None {
        (s.0, Some(kex), s.2)
    } else {
        s
    };
    if s1.2 is None && s1.0 is Some && s1.1 is Some {
        match first_common(s1.0->0, s1.1->0) {
            Some(n) => (s1.0, s1.1, Some(n)),
            None => s1,
        }
    } else {
        s1
    }
}

/// The session key a KEXINIT from `flow` is filed under, and whether it
/// travels in the key's direction: the flow itself when known, else the
/// reverse flow when known, else a new session for the flow.
pub open spec fn ssh_session_key(
    sessions: Map<(Seq<char>, Seq<char>), (Option<Seq<Seq<char>>>, Option<Seq<Seq<char>>>, Option<Seq<char>>)>,
    flow: (Seq<char>, Seq<char>),
) -> ((Seq<char>, Seq<char>), bool) {
    if sessions.contains_key(flow) {
        (flow, true)
    } else if sessions.contains_key((flow.1, flow.0)) {
        ((flow.1, flow.0), false)
    } else {
        (flow, true)
    }
}

/// The session table and host capabilities after an SSH packet sent from
/// `src_ip:sport` to `dst_ip:dport`.
pub open spec fn ssh_effect(
    sessions: Map<(Seq<char>, Seq<char>), (Option<Seq<Seq<char>>>, Option<Seq<Seq<char>>>, Option<Seq<char>>)>,
    caps: Map<Seq<char>, Seq<Seq<char>>>,
    src_ip: Seq<char>,
    dst_ip: Seq<char>,
    sport: u16,
    dport: u16,
    payload: Seq<u8>,
) -> (
    Map<(Seq<char>, Seq<char>), (Option<Seq<Seq<char>>>, Option<Seq<Seq<char>>>, Option<Seq<char>>)>,
    Map<Seq<char>, Seq<Seq<char>>>,
) {
    match kexinit_names(payload) {
        None => (sessions, caps),
        Some(kex) => {
            let flow = (socket_text(src_ip, sport), socket_text(dst_ip, dport));
            let (key, forward) = ssh_session_key(sessions, flow);
            let s = session_or_new(sessions, key);
            (
                sessions.insert(key, ssh_session_after(s, forward, kex)),
                if records_kexinit(s, forward) {
                    caps.insert(src_ip, linked_insert_all(caps_of(caps, src_ip), kex))
                } else {
                    caps
                },
            )
        },
    }
}

/// Follows an SSH packet sent from `src_ip:sport` to `dst_ip:dport`. A
/// KEXINIT is filed under its connection (in either direction), the first
/// KEXINIT of each side is kept and recorded as the sender's capabilities,
/// and once both sides are known the negotiated method is fixed. Any other
/// packet changes nothing.
pub fn process_ssh(
    src_ip: &str,
    dst_ip: &str,
    sport: u16,
    dport: u16,
    payload: &[u8],
    sessions: &mut Table<FlowKey, SshSession>,
    host_caps: &mut Table<String, HostCapabilities>,
)
    ensures
        (final(sessions)@, final(host_caps)@) == ssh_effect(
            old(sessions)@,
            old(host_caps)@,
            src_ip@,
            dst_ip@,
            sport,
            dport,
            payload@,
        ),
{
    let kex = match parse_ssh_kexinit(payload) {
        Some(k) => k,
        None => return,
    };
    let flow = FlowKey { src: format_socket_addr(src_ip, sport), dst: format_socket_addr(dst_ip, dport) };
    let reverse_flow = FlowKey { src: flow.dst.clone(), dst: flow.src.clone() };
    let ghost flow_v = flow@;
    assert(reverse_flow@ == (flow_v.1, flow_v.0));
    let (key, is_forward) = if sessions.get(&flow).is_some() {
        (flow, true)
    } else if sessions.get(&reverse_flow).is_some() {
        (reverse_flow, false)
    } else {
        (flow, true)
    };
    assert((key@, is_forward) == ssh_session_key(old(sessions)@, flow_v));
    let ghost key_v = key@;
    let prev = sessions.replace(key, SshSession::new());
    let mut session = match prev {
        Some(s) => s,
        None => SshSession::new(),
    };
    let ghost s0 = session@;
    assert(s0 == session_or_new(old(sessions)@, key_v));
    let ghost kex_v = kex@;
    if is_forward && session.client_kexinit.is_none() {
        update_host_caps(host_caps, src_ip, &kex);
        session.client_kexinit = Some(kex);
    } else if !is_forward && session.server_kexinit.is_none() {
        update_host_caps(host_caps, src_ip, &kex);
        session.server_kexinit = Some(kex);
    }
    if session.negotiated.is_none() {
        match (&session.client_kexinit, &session.server_kexinit) {
            (Some(client), Some(server)) => {
                if let Some(neg) = negotiate(
                    client.kex_algorithms.as_slice(),
                    server.kex_algorithms.as_slice(),
                ) {
                    session.negotiated = Some(NegotiatedAlgorithms { kex: neg });
                }
            },
            _ => {},
        }
    }
    assert(session@ == ssh_session_after(s0, is_forward, kex_v));
    let key2 = if is_forward {
        FlowKey { src: format_socket_addr(src_ip, sport), dst: format_socket_addr(dst_ip, dport) }
    } else {
        FlowKey { src: format_socket_addr(dst_ip, dport), dst: format_socket_addr(src_ip, sport) }
    };
    assert(key2@ == key_v);
    sessions.put(key2, session);
}

} // verus!
