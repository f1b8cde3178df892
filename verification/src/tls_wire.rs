//! TLS handshake message parsing: the ClientHello and ServerHello fields
//! that reveal which cipher suites and key-share groups a peer offers or
//! has chosen.

use vstd::prelude::*;
use crate::wire::{be16, read_be16};

verus! {

/// Why a hello message could not be parsed.
#[derive(Clone, Copy, Debug, PartialEq, Eq, Structural)]
pub enum HelloError {
    TooShortForRandom,
    TooShortForSessionIdLength,
    TooShortForSessionId,
    TooShortForCipherSuitesLength,
    TooShortForCipherSuites,
    TooShortForCompressionMethods,
    TooShortForExtensionsLength,
    TooShortForExtensions,
    ExtensionOverrun,
    KeyShareTooShort,
    KeyShareDataTooShort,
    ServerHelloTooShort,
    NotServerHello,
    ServerHelloSessionIdTooShort,
}

/// The description of a hello parsing error.
pub open spec fn hello_error_text(e: HelloError) -> Seq<char> {
    match e {
        HelloError::TooShortForRandom => "Data too short for ProtocolVersion and Random"@,
        HelloError::TooShortForSessionIdLength => "Data too short for SessionID length"@,
        HelloError::TooShortForSessionId => "Data too short for SessionID"@,
        HelloError::TooShortForCipherSuitesLength => "Data too short for CipherSuites length"@,
        HelloError::TooShortForCipherSuites => "Data too short for CipherSuites data"@,
        HelloError::TooShortForCompressionMethods => "Data too short for compression methods length"@,
        HelloError::TooShortForExtensionsLength => "Data too short for extensions length"@,
        HelloError::TooShortForExtensions => "Data too short for extensions data"@,
        HelloError::ExtensionOverrun => "Extension length goes beyond extensions block"@,
        HelloError::KeyShareTooShort => "KeyShare extension too short"@,
        HelloError::KeyShareDataTooShort => "KeyShare key_exchange data too short"@,
        HelloError::ServerHelloTooShort => "Payload too short for ServerHello"@,
        HelloError::NotServerHello => "Not a ServerHello handshake"@,
        HelloError::ServerHelloSessionIdTooShort => "Payload too short for Session ID"@,
    }
}

impl HelloError {
    /// A human-readable description of the error.
    pub fn message(&self) -> (m: &'static str)
        ensures
            m@ == hello_error_text(*self),
    {
        match self {
            HelloError::TooShortForRandom => "Data too short for ProtocolVersion and Random",
            HelloError::TooShortForSessionIdLength => "Data too short for SessionID length",
            HelloError::TooShortForSessionId => "Data too short for SessionID",
            HelloError::TooShortForCipherSuitesLength => "Data too short for CipherSuites length",
            HelloError::TooShortForCipherSuites => "Data too short for CipherSuites data",
            HelloError::TooShortForCompressionMethods => "Data too short for compression methods length",
            HelloError::TooShortForExtensionsLength => "Data too short for extensions length",
            HelloError::TooShortForExtensions => "Data too short for extensions data",
            HelloError::ExtensionOverrun => "Extension length goes beyond extensions block",
            HelloError::KeyShareTooShort => "KeyShare extension too short",
            HelloError::KeyShareDataTooShort => "KeyShare key_exchange data too short",
            HelloError::ServerHelloTooShort => "Payload too short for ServerHello",
            HelloError::NotServerHello => "Not a ServerHello handshake",
            HelloError::ServerHelloSessionIdTooShort => "Payload too short for Session ID",
        }
    }
}

/// The big-endian 16-bit field starting at `d[i]`.
pub open spec fn u16_at(d: Seq<u8>, i: int) -> int {
    be16(d[i], d[i + 1])
}

/// Puts `front` before the values of an `Ok` result; errors pass through.
pub open spec fn prepend_ok(front: Seq<u16>, r: Result<Seq<u16>, HelloError>) -> Result<Seq<u16>, HelloError> {
    match r {
        Ok(rest) => Ok(front + rest),
        Err(e) => Err(e),
    }
}

/// Groups of the KeyShareEntry list of a ClientHello that occupies `d[ks..lim]`.
pub open spec fn client_share_groups(d: Seq<u8>, ks: int, lim: int) -> Result<Seq<u16>, HelloError>
    decreases lim - ks,
{
    if ks + 4 > lim {
        Ok(Seq::empty())
    } else {
        let next = ks + 4 + u16_at(d, ks + 2);
        if next > lim {
            Err(HelloError::KeyShareDataTooShort)
        } else {
            prepend_ok(seq![u16_at(d, ks) as u16], client_share_groups(d, next, lim))
        }
    }
}

/// Key-share groups announced by the extensions block `d[off..end]` of a ClientHello.
pub open spec fn client_ext_groups(d: Seq<u8>, off: int, end: int) -> Result<Seq<u16>, HelloError>
    decreases end - off,
{
    if off + 4 > end {
        Ok(Seq::empty())
    } else {
        let body = off + 4;
        let len = u16_at(d, off + 2);
        if body + len > end {
            Err(HelloError::ExtensionOverrun)
        } else if u16_at(d, off) == 0x0033 {
            if len < 2 {
                Err(HelloError::KeyShareTooShort)
            } else {
                match client_share_groups(d, body + 2, body + len) {
                    Err(e) => Err(e),
                    Ok(groups) => prepend_ok(groups, client_ext_groups(d, body + len, end)),
                }
            }
        } else {
            client_ext_groups(d, body + len, end)
        }
    }
}

/// Prepending twice is prepending the concatenation.
pub proof fn lemma_prepend_ok_twice(a: Seq<u16>, b: Seq<u16>, r: Result<Seq<u16>, HelloError>)
    ensures
        prepend_ok(a, prepend_ok(b, r)) == prepend_ok(a + b, r),
{
    if let Ok(rest) = r {
        assert(a + (b + rest) =~= (a + b) + rest);
    }
}

/// The cipher suites read two bytes at a time from `d[start..]` for a list
/// of `len` bytes; an odd length reads one byte past the list.
pub open spec fn cipher_list(d: Seq<u8>, start: int, len: int) -> Seq<u16> {
    Seq::new(((len + 1) / 2) as nat, |k: int| u16_at(d, start + 2 * k) as u16)
}

/// Offset just past the session id of a ClientHello record.
pub open spec fn ch_sid_end(d: Seq<u8>) -> int {
    44 + d[43]
}

/// Length of the cipher suite list of a ClientHello record.
pub open spec fn ch_cipher_len(d: Seq<u8>) -> int {
    u16_at(d, ch_sid_end(d))
}

/// Offset of the first cipher suite of a ClientHello record.
pub open spec fn ch_cipher_start(d: Seq<u8>) -> int {
    ch_sid_end(d) + 2
}

/// Offset of the compression methods length, after the cipher suites have
/// been read in steps of two bytes.
pub open spec fn ch_comp_pos(d: Seq<u8>) -> int {
    ch_cipher_start(d) + 2 * ((ch_cipher_len(d) + 1) / 2)
}

/// Offset of the extensions length of a ClientHello record.
pub open spec fn ch_ext_len_pos(d: Seq<u8>) -> int {
    ch_comp_pos(d) + 1 + d[ch_comp_pos(d)]
}

/// The cipher suites and key-share groups that a TLS record holding a
/// ClientHello offers, or why they cannot be read.
pub open spec fn client_hello_result(d: Seq<u8>) -> Result<(Seq<u16>, Seq<u16>), HelloError> {
    let n = d.len() as int;
    if n < 34 {
        Err(HelloError::TooShortForRandom)
    } else if 43 >= n {
        Err(HelloError::TooShortForSessionIdLength)
    } else if ch_sid_end(d) > n {
        Err(HelloError::TooShortForSessionId)
    } else if ch_sid_end(d) + 2 > n {
        Err(HelloError::TooShortForCipherSuitesLength)
    } else if ch_cipher_start(d) + ch_cipher_len(d) > n {
        Err(HelloError::TooShortForCipherSuites)
    } else if ch_comp_pos(d) >= n {
        Err(HelloError::TooShortForCompressionMethods)
    } else if ch_ext_len_pos(d) + 2 > n {
        Err(HelloError::TooShortForExtensionsLength)
    } else {
        let e0 = ch_ext_len_pos(d) + 2;
        let e1 = e0 + u16_at(d, ch_ext_len_pos(d));
        if e1 > n {
            Err(HelloError::TooShortForExtensions)
        } else {
            match client_ext_groups(d, e0, e1) {
                Err(e) => Err(e),
                Ok(groups) => Ok((cipher_list(d, ch_cipher_start(d), ch_cipher_len(d)), groups)),
            }
        }
    }
}

/// A ClientHello whose cipher suite list has an odd length and ends the
/// record: reading it in steps of two goes one byte past the end.
pub open spec fn client_hello_overreads(d: Seq<u8>) -> bool {
    let n = d.len() as int;
    &&& n >= 44
    &&& ch_sid_end(d) + 2 <= n
    &&& ch_cipher_len(d) % 2 == 1
    &&& ch_cipher_start(d) + ch_cipher_len(d) == n
}

/// The cipher suites and key-share groups offered by a ClientHello.
pub struct CryptoConfig {
    pub ciphers: Vec<u16>,
    pub keyshare_groups: Vec<u16>,
}

fn client_share_groups_exec(data: &[u8], start: usize, lim: usize, out: &mut Vec<u16>) -> (ok: Result<(), HelloError>)
    requires
        start <= lim <= data@.len(),
    ensures
        match client_share_groups(data@, start as int, lim as int) {
            Ok(g) => ok is Ok && final(out)@ == old(out)@ + g,
            Err(e) => ok == Err::<(), HelloError>(e),
        },
{
    let ghost d = data@;
    let ghost out0 = old(out)@;
    let mut ks = start;
    while lim - ks >= 4
        invariant
            start <= ks <= lim <= data@.len(),
            d == data@,
            client_share_groups(d, start as int, lim as int) == prepend_ok(
                out@.subrange(out0.len() as int, out@.len() as int),
                client_share_groups(d, ks as int, lim as int),
            ),
            out@.len() >= out0.len(),
            out@.subrange(0, out0.len() as int) == out0,
        decreases lim - ks,
    {
        let group = read_be16(data, ks);
        let kel = read_be16(data, ks + 2) as usize;
        if kel > lim - ks - 4 {
            return Err(HelloError::KeyShareDataTooShort);
        }
        let ghost before = out@;
        out.push(group);
        proof {
            lemma_prepend_ok_twice(
                before.subrange(out0.len() as int, before.len() as int),
                seq![group],
                client_share_groups(d, ks + 4 + kel, lim as int),
            );
            assert(out@.subrange(out0.len() as int, out@.len() as int) =~= before.subrange(
                out0.len() as int,
                before.len() as int,
            ) + seq![group]);
            assert(out@.subrange(0, out0.len() as int) =~= before.subrange(0, out0.len() as int));
        }
        ks = ks + 4 + kel;
    }
    proof {
        assert(out@ =~= out0 + out@.subrange(out0.len() as int, out@.len() as int));
    }
    Ok(())
}

fn client_ext_groups_exec(data: &[u8], start: usize, end: usize) -> (r: Result<Vec<u16>, HelloError>)
    requires
        start <= end <= data@.len(),
    ensures
        match client_ext_groups(data@, start as int, end as int) {
            Ok(g) => r matches Ok(v) && v@ == g,
            Err(e) => r == Err::<Vec<u16>, HelloError>(e),
        },
{
    let ghost d = data@;
    let mut groups: Vec<u16> = Vec::new();
    let mut off = start;
    while end - off >= 4
        invariant
            start <= off <= end <= data@.len(),
            d == data@,
            client_ext_groups(d, start as int, end as int) == prepend_ok(
                groups@,
                client_ext_groups(d, off as int, end as int),
            ),
        decreases end - off,
    {
        let ext_type = read_be16(data, off);
        let ext_len = read_be16(data, off + 2) as usize;
        let body = off + 4;
        if ext_len > end - body {
            return Err(HelloError::ExtensionOverrun);
        }
        let ghost walk_here = client_ext_groups(d, off as int, end as int);
        if ext_type == 0x0033 {
            if ext_len < 2 {
                return Err(HelloError::KeyShareTooShort);
            }
            let ghost before = groups@;
            let res = client_share_groups_exec(data, body + 2, body + ext_len, &mut groups);
            if let Err(e) = res {
                return Err(e);
            }
            proof {
                let sg = client_share_groups(d, body + 2, body + ext_len);
                assert(sg is Ok);
                let g = sg->Ok_0;
                assert(groups@ =~= before + g);
                assert(walk_here == prepend_ok(g, client_ext_groups(d, body + ext_len, end as int)));
                lemma_prepend_ok_twice(before, g, client_ext_groups(d, body + ext_len, end as int));
            }
        } else {
            assert(walk_here == client_ext_groups(d, body + ext_len, end as int));
        }
        off = body + ext_len;
    }
    proof {
        assert(groups@ + Seq::<u16>::empty() =~= groups@);
    }
    Ok(groups)
}

/// Reads the cipher suites and key-share groups of a TLS record that holds a
/// ClientHello (record header, handshake header, then the hello body).
pub fn parse_ssl_v3_client_hello(data: &[u8]) -> (r: Result<CryptoConfig, HelloError>)
    requires
        !client_hello_overreads(data@),
    ensures
        match client_hello_result(data@) {
            Ok((ciphers, groups)) => r matches Ok(c) && c.ciphers@ == ciphers
                && c.keyshare_groups@ == groups,
            Err(e) => r matches Err(e2) && e2 == e,
        },
{
    let ghost d = data@;
    let n = data.len();
    if n < 34 {
        return Err(HelloError::TooShortForRandom);
    }
    if 43 >= n {
        return Err(HelloError::TooShortForSessionIdLength);
    }
    let session_id_len = data[43] as usize;
    if session_id_len > n - 44 {
        return Err(HelloError::TooShortForSessionId);
    }
    let sid_end = 44 + session_id_len;
    if n - sid_end < 2 {
        return Err(HelloError::TooShortForCipherSuitesLength);
    }
    let cipher_suites_len = read_be16(data, sid_end) as usize;
    let start = sid_end + 2;
    if cipher_suites_len > n - start {
        return Err(HelloError::TooShortForCipherSuites);
    }
    let count = (cipher_suites_len + 1) / 2;
    let mut cipher_suites: Vec<u16> = Vec::new();
    let mut k: usize = 0;
    while k < count
        invariant
            d == data@,
            start == ch_cipher_start(d),
            cipher_suites_len == ch_cipher_len(d),
            start + cipher_suites_len <= n == d.len(),
            !client_hello_overreads(d),
            n >= 44,
            count == (cipher_suites_len + 1) / 2,
            k <= count,
            cipher_suites@.len() == k,
            forall|j: int| 0 <= j < k ==> cipher_suites@[j] == u16_at(d, start + 2 * j) as u16,
        decreases count - k,
    {
        let cs = read_be16(data, start + 2 * k);
        cipher_suites.push(cs);
        k = k + 1;
    }
    assert(cipher_suites@ =~= cipher_list(d, start as int, cipher_suites_len as int));
    let comp_pos = start + 2 * count;
    if comp_pos >= n {
        return Err(HelloError::TooShortForCompressionMethods);
    }
    let comp_len = data[comp_pos] as usize;
    if comp_len + 3 > n - comp_pos {
        return Err(HelloError::TooShortForExtensionsLength);
    }
    let ext_len_pos = comp_pos + 1 + comp_len;
    let extensions_len = read_be16(data, ext_len_pos) as usize;
    let e0 = ext_len_pos + 2;
    if extensions_len > n - e0 {
        return Err(HelloError::TooShortForExtensions);
    }
    match client_ext_groups_exec(data, e0, e0 + extensions_len) {
        Err(e) => Err(e),
        Ok(keyshare_groups) => Ok(CryptoConfig { ciphers: cipher_suites, keyshare_groups }),
    }
}

/// Whether reading the ClientHello in `data` would read one byte past its end.
pub fn client_hello_overreads_exec(data: &[u8]) -> (b: bool)
    ensures
        b == client_hello_overreads(data@),
{
    let n = data.len();
    if n < 44 {
        return false;
    }
    let sid_end = 44 + data[43] as usize;
    if sid_end > n || n - sid_end < 2 {
        return false;
    }
    let len = read_be16(data, sid_end) as usize;
    len % 2 == 1 && n - sid_end - 2 == len
}

/// One KeyShareEntry: a named group and its key exchange bytes.
pub struct KeyShareEntry {
    pub group: u16,
    pub key_exchange: Vec<u8>,
}

impl View for KeyShareEntry {
    type V = (u16, Seq<u8>);

    open spec fn view(&self) -> (u16, Seq<u8>) {
        (self.group, self.key_exchange@)
    }
}

/// The views of a list of key share entries.
pub open spec fn entries_view(v: Seq<KeyShareEntry>) -> Seq<(u16, Seq<u8>)> {
    v.map_values(|e: KeyShareEntry| e@)
}

/// The complete KeyShareEntry items of `d[off..]`; reading stops at the
/// first entry whose key exchange data does not fit.
pub open spec fn key_share_entries(d: Seq<u8>, off: int) -> Seq<(u16, Seq<u8>)>
    decreases d.len() - off,
{
    if off + 4 > d.len() {
        Seq::empty()
    } else {
        let body = off + 4;
        let len = u16_at(d, off + 2);
        if body + len > d.len() {
            Seq::empty()
        } else {
            seq![(u16_at(d, off) as u16, d.subrange(body, body + len))] + key_share_entries(
                d,
                body + len,
            )
        }
    }
}

/// Reads the KeyShareEntry items of a key_share extension body.
pub fn parse_key_share(data: &[u8]) -> (entries: Vec<KeyShareEntry>)
    ensures
        entries_view(entries@) == key_share_entries(data@, 0),
{
    let ghost d = data@;
    let mut entries: Vec<KeyShareEntry> = Vec::new();
    if data.len() < 2 {
        assert(entries_view(entries@) =~= key_share_entries(d, 0));
        return entries;
    }
    let mut offset: usize = 0;
    while data.len() - offset >= 4
        invariant
            offset <= data@.len(),
            d == data@,
            key_share_entries(d, 0) == entries_view(entries@) + key_share_entries(d, offset as int),
        decreases data@.len() - offset,
    {
        let group = read_be16(data, offset);
        let key_len = read_be16(data, offset + 2) as usize;
        let body = offset + 4;
        if key_len > data.len() - body {
            assert(key_share_entries(d, offset as int) =~= Seq::<(u16, Seq<u8>)>::empty());
            assert(entries_view(entries@) =~= key_share_entries(d, 0));
            return entries;
        }
        let key_exchange = vstd::slice::slice_to_vec(&data[body..body + key_len]);
        let ghost before = entries@;
        entries.push(KeyShareEntry { group, key_exchange });
        proof {
            assert(entries_view(entries@) =~= entries_view(before) + seq![
                (group, d.subrange(body as int, body + key_len)),
            ]);
            assert(key_share_entries(d, offset as int) == seq![
                (group, d.subrange(body as int, body + key_len)),
            ] + key_share_entries(d, body + key_len));
            assert(key_share_entries(d, 0) =~= entries_view(entries@) + key_share_entries(
                d,
                body + key_len,
            ));
        }
        offset = body + key_len;
    }
    assert(key_share_entries(d, offset as int) =~= Seq::<(u16, Seq<u8>)>::empty());
    assert(entries_view(entries@) =~= key_share_entries(d, 0));
    entries
}

/// The signature scheme codes listed in a signature_algorithms extension
/// body, or none when the body is malformed.
pub open spec fn signature_scheme_codes(d: Seq<u8>) -> Seq<u16> {
    if d.len() < 2 || d.len() < 2 + u16_at(d, 0) {
        Seq::empty()
    } else {
        Seq::new((u16_at(d, 0) / 2) as nat, |k: int| u16_at(d, 2 + 2 * k) as u16)
    }
}

/// Reads the signature scheme codes of a signature_algorithms extension body.
pub fn parse_signature_algorithms(data: &[u8]) -> (codes: Vec<u16>)
    ensures
        codes@ == signature_scheme_codes(data@),
{
    let ghost d = data@;
    let mut codes: Vec<u16> = Vec::new();
    if data.len() < 2 {
        return codes;
    }
    let list_len = read_be16(data, 0) as usize;
    if data.len() - 2 < list_len {
        return codes;
    }
    let mut pos: usize = 2;
    while pos + 2 <= 2 + list_len
        invariant
            d == data@,
            2 + list_len <= d.len(),
            list_len == u16_at(d, 0),
            2 <= pos,
            pos <= 2 + list_len,
            codes@.len() * 2 == pos - 2,
            forall|j: int| 0 <= j < codes@.len() ==> codes@[j] == u16_at(d, 2 + 2 * j) as u16,
        decreases 2 + list_len - pos,
    {
        let code = read_be16(data, pos);
        codes.push(code);
        pos = pos + 2;
    }
    assert(codes@ =~= signature_scheme_codes(d));
    codes
}

/// The key share entries of the last key_share extension of the extensions
/// block `d[pos..]`, or `found` when no later one occurs; the walk ends at
/// the first extension that does not fit.
pub open spec fn extension_key_shares(d: Seq<u8>, pos: int, found: Seq<(u16, Seq<u8>)>) -> Seq<(u16, Seq<u8>)>
    decreases d.len() - pos,
{
    if pos + 4 > d.len() {
        found
    } else {
        let body = pos + 4;
        let len = u16_at(d, pos + 2);
        if body + len > d.len() {
            found
        } else if u16_at(d, pos) == 0x0033 {
            extension_key_shares(d, body + len, key_share_entries(d.subrange(body, body + len), 0))
        } else {
            extension_key_shares(d, body + len, found)
        }
    }
}

/// A key_share or signature_algorithms extension of `d[pos..]` claims more
/// bytes than the block holds: slicing out its body goes past the end.
pub open spec fn extensions_overrun(d: Seq<u8>, pos: int) -> bool
    decreases d.len() - pos,
{
    if pos + 4 > d.len() {
        false
    } else {
        let body = pos + 4;
        let len = u16_at(d, pos + 2);
        if body + len > d.len() {
            u16_at(d, pos) == 0x0033 || u16_at(d, pos) == 0x000d
        } else {
            extensions_overrun(d, body + len)
        }
    }
}

/// Reads the key share entries of a ServerHello extensions block; the last
/// key_share extension wins.
pub fn parse_extensions(extensions: &[u8]) -> (entries: Vec<KeyShareEntry>)
    requires
        !extensions_overrun(extensions@, 0),
    ensures
        entries_view(entries@) == extension_key_shares(extensions@, 0, Seq::empty()),
{
    let ghost d = extensions@;
    let mut pos: usize = 0;
    let mut key_share_entries_found: Vec<KeyShareEntry> = Vec::new();
    assert(entries_view(key_share_entries_found@) =~= Seq::<(u16, Seq<u8>)>::empty());
    while extensions.len() - pos >= 4
        invariant
            pos <= extensions@.len(),
            d == extensions@,
            !extensions_overrun(d, pos as int),
            extension_key_shares(d, 0, Seq::empty()) == extension_key_shares(
                d,
                pos as int,
                entries_view(key_share_entries_found@),
            ),
        decreases extensions@.len() - pos,
    {
        let ext_type = read_be16(extensions, pos);
        let ext_len = read_be16(extensions, pos + 2) as usize;
        let body = pos + 4;
        if ext_len > extensions.len() - body {
            return key_share_entries_found;
        }
        if ext_type == 0x0033 {
            key_share_entries_found = parse_key_share(&extensions[body..body + ext_len]);
        }
        if ext_type == 0x000d {
            let _codes = parse_signature_algorithms(&extensions[body..body + ext_len]);
        }
        pos = body + ext_len;
    }
    key_share_entries_found
}

/// The cipher suite and key-share group that a TLS record holding a
/// ServerHello selects (group 0 unless exactly one key share entry is
/// present), or why they cannot be read.
pub open spec fn server_hello_result(d: Seq<u8>) -> Result<(u16, u16), HelloError> {
    let n = d.len() as int;
    if n < 47 {
        Err(HelloError::ServerHelloTooShort)
    } else if d[5] != 2 {
        Err(HelloError::NotServerHello)
    } else if n < 47 + d[43] {
        Err(HelloError::ServerHelloSessionIdTooShort)
    } else {
        let sid = d[43] as int;
        let cipher = u16_at(d, 44 + sid) as u16;
        let e0 = 49 + sid;
        let e1 = e0 + u16_at(d, 47 + sid);
        if n < e1 {
            Ok((cipher, 0u16))
        } else {
            let entries = extension_key_shares(d.subrange(e0, e1), 0, Seq::empty());
            Ok((cipher, if entries.len() == 1 { entries[0].0 } else { 0u16 }))
        }
    }
}

/// Reading the ServerHello in `d` would index past its end: the
/// extensions length is cut off, or a key_share or signature_algorithms
/// extension overruns the extensions block.
pub open spec fn server_hello_overreads(d: Seq<u8>) -> bool {
    let n = d.len() as int;
    &&& n >= 47
    &&& d[5] == 2
    &&& n >= 47 + d[43]
    &&& {
        let sid = d[43] as int;
        let e0 = 49 + sid;
        ||| n < e0
        ||| (n >= e0 + u16_at(d, 47 + sid) && extensions_overrun(
            d.subrange(e0, e0 + u16_at(d, 47 + sid)),
            0,
        ))
    }
}

/// The cipher suite and key-share group chosen by a ServerHello.
pub struct SessionConfig {
    pub ciphers: Vec<u16>,
    pub keyshare: u16,
}

/// Reads the chosen cipher suite and key-share group of a TLS record that
/// holds a ServerHello.
pub fn parse_server_hello_v3(payload: &[u8]) -> (r: Result<SessionConfig, HelloError>)
    requires
        !server_hello_overreads(payload@),
    ensures
        match server_hello_result(payload@) {
            Ok((cipher, group)) => r matches Ok(c) && c.ciphers@ == seq![cipher] && c.keyshare
                == group,
            Err(e) => r matches Err(e2) && e2 == e,
        },
{
    let ghost d = payload@;
    let n = payload.len();
    if n < 5 + 4 + 38 {
        return Err(HelloError::ServerHelloTooShort);
    }
    if payload[5] != 0x02 {
        return Err(HelloError::NotServerHello);
    }
    let session_id_len = payload[43] as usize;
    if n < 44 + session_id_len + 3 {
        return Err(HelloError::ServerHelloSessionIdTooShort);
    }
    let cipher_pos = 44 + session_id_len;
    let cipher_code = read_be16(payload, cipher_pos);
    let ext_len_pos = cipher_pos + 3;
    let extensions_len = read_be16(payload, ext_len_pos) as usize;
    let e0 = ext_len_pos + 2;
    let mut keyshare: u16 = 0;
    if n - e0 >= extensions_len {
        let entries = parse_extensions(&payload[e0..e0 + extensions_len]);
        if entries.len() == 1 {
            keyshare = entries[0].group;
        }
        proof {
            assert(entries_view(entries@).len() == entries@.len());
            if entries@.len() == 1 {
                assert(entries_view(entries@)[0] == entries@[0]@);
            }
        }
    }
    let mut ciphers: Vec<u16> = Vec::new();
    ciphers.push(cipher_code);
    assert(ciphers@ =~= seq![cipher_code]);
    Ok(SessionConfig { ciphers, keyshare })
}

/// Whether reading the ServerHello in `payload` would index past its end.
pub fn server_hello_overreads_exec(payload: &[u8]) -> (b: bool)
    ensures
        b == server_hello_overreads(payload@),
{
    let n = payload.len();
    if n < 47 || payload[5] != 2 {
        return false;
    }
    let sid = payload[43] as usize;
    if n < 47 + sid {
        return false;
    }
    if n < 49 + sid {
        return true;
    }
    let e0 = 49 + sid;
    let ext_len = read_be16(payload, 47 + sid) as usize;
    if n - e0 < ext_len {
        return false;
    }
    extensions_overrun_exec(&payload[e0..e0 + ext_len])
}

fn extensions_overrun_exec(d: &[u8]) -> (b: bool)
    ensures
        b == extensions_overrun(d@, 0),
{
    let mut pos: usize = 0;
    while d.len() - pos >= 4
        invariant
            pos <= d@.len(),
            extensions_overrun(d@, 0) == extensions_overrun(d@, pos as int),
        decreases d@.len() - pos,
    {
        let t = read_be16(d, pos);
        let len = read_be16(d, pos + 2) as usize;
        if len > d.len() - pos - 4 {
            return t == 0x0033 || t == 0x000d;
        }
        pos = pos + 4 + len;
    }
    false
}

/// The IANA name of a TLS signature scheme code (`private_use` for the
/// reserved 0x2a2a, `unknown` for codes outside the table).
pub open spec fn signature_scheme(code: u16) -> Seq<char> {
    match code {
        0x0201 => "rsa_pkcs1_sha1"@,
        0x0203 => "ecdsa_sha1"@,
        0x0401 => "rsa_pkcs1_sha256"@,
        0x0403 => "ecdsa_secp256r1_sha256"@,
        0x0501 => "rsa_pkcs1_sha384"@,
        0x0503 => "ecdsa_secp384r1_sha384"@,
        0x0601 => "rsa_pkcs1_sha512"@,
        0x0603 => "ecdsa_secp521r1_sha512"@,
        0x0804 => "rsa_pss_pss_sha256"@,
        0x0805 => "rsa_pss_pss_sha384"@,
        0x0806 => "rsa_pss_pss_sha512"@,
        0x0807 => "ed25519"@,
        0x0808 => "ed448"@,
        0x0809 => "rsa_pss_rsae_sha256"@,
        0x080a => "rsa_pss_rsae_sha384"@,
        0x080b => "rsa_pss_rsae_sha512"@,
        0x080c => "ecdsa_brainpoolP256r1tls13_sha256"@,
        0x080d => "ecdsa_brainpoolP384r1tls13_sha384"@,
        0x080e => "ecdsa_brainpoolP512r1tls13_sha512"@,
        0x081a => "dilithium2"@,
        0x081b => "dilithium3"@,
        0x081c => "dilithium5"@,
        0x081d => "falcon512"@,
        0x081e => "falcon1024"@,
        0x2a2a => "private_use"@,
        _ => "unknown"@,
    }
}

/// The name of a TLS signature scheme code.
pub fn signature_scheme_name(code: u16) -> (name: &'static str)
    ensures
        name@ == signature_scheme(code),
{
    match code {
        0x0201 => "rsa_pkcs1_sha1",
        0x0203 => "ecdsa_sha1",
        0x0401 => "rsa_pkcs1_sha256",
        0x0403 => "ecdsa_secp256r1_sha256",
        0x0501 => "rsa_pkcs1_sha384",
        0x0503 => "ecdsa_secp384r1_sha384",
        0x0601 => "rsa_pkcs1_sha512",
        0x0603 => "ecdsa_secp521r1_sha512",
        0x0804 => "rsa_pss_pss_sha256",
        0x0805 => "rsa_pss_pss_sha384",
        0x0806 => "rsa_pss_pss_sha512",
        0x0807 => "ed25519",
        0x0808 => "ed448",
        0x0809 => "rsa_pss_rsae_sha256",
        0x080a => "rsa_pss_rsae_sha384",
        0x080b => "rsa_pss_rsae_sha512",
        0x080c => "ecdsa_brainpoolP256r1tls13_sha256",
        0x080d => "ecdsa_brainpoolP384r1tls13_sha384",
        0x080e => "ecdsa_brainpoolP512r1tls13_sha512",
        0x081a => "dilithium2",
        0x081b => "dilithium3",
        0x081c => "dilithium5",
        0x081d => "falcon512",
        0x081e => "falcon1024",
        0x2a2a => "private_use",
        _ => "unknown",
    }
}

} // verus!
