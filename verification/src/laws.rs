//! Properties of the library that hold across its operations.

use vstd::prelude::*;
use crate::ssh::{first_common, linked_insert, linked_insert_all, ssh_session_after, without_name};
use crate::tcp::{join_step, seq_after};
use crate::scan_report::{
    xml_escaped, xml_escape_char, in_section, section_counts, ReportResults, ScanResult,
    xml_host_results, xml_report, xml_result, xml_results,
};
use crate::endpoint::{digits_value, is_digit, lemma_decimal_value, lemma_numeral_chars, lemma_split_host_port, split_endpoint};
use crate::report_files::{candidate_name, two_digits};
use crate::ip::{ip_text, ipv4_text, ipv6_text, ipv6_groups, join_groups, longest_zero_run};
use crate::ssh::socket_text;
use crate::text::{decimal, hex};
use crate::tls::endpoint_text;
use crate::tls_wire::{
    client_hello_overreads, client_hello_result, client_ext_groups, client_share_groups,
    server_hello_overreads, server_hello_result,
};
use crate::wire::be16;
use crate::capture::CaptureView;
use crate::summary::{
    GroupView, KexView, PQC_SUPPORTED, TlsKeyView, capture_hosts, capture_pqc_hosts, key_hosts,
    keyshare_pqc_hosts, ssh_pqc_hosts, ssh_verdicts, tls_session_pqc, tls_verdicts,
};

verus! {

/// Key exchange negotiation picks a method both sides offer, and no method
/// the client prefers to it is offered by the server; it finds nothing only
/// when the two lists have no method in common.
pub proof fn law_negotiated_method_is_first_common(client: Seq<Seq<char>>, server: Seq<Seq<char>>)
    ensures
        match first_common(client, server) {
            Some(m) => client.contains(m) && server.contains(m) && exists|i: int|
                0 <= i < client.len() && client[i] == m && forall|j: int|
                    0 <= j < i ==> !server.contains(#[trigger] client[j]),
            None => forall|i: int| 0 <= i < client.len() ==> !server.contains(#[trigger] client[i]),
        },
    decreases client.len(),
{
    if client.len() > 0 {
        let rest = client.drop_first();
        law_negotiated_method_is_first_common(rest, server);
        if server.contains(client[0]) {
            assert(client[0] == client[0]);
        } else {
            match first_common(rest, server) {
                Some(m) => {
                    let i = choose|i: int|
                        0 <= i < rest.len() && rest[i] == m && forall|j: int|
                            0 <= j < i ==> !server.contains(#[trigger] rest[j]);
                    assert(client[i + 1] == m);
                    assert forall|j: int| 0 <= j < i + 1 implies !server.contains(#[trigger] client[j]) by {
                        if j > 0 {
                            assert(client[j] == rest[j - 1]);
                        }
                    }
                },
                None => {
                    assert forall|i: int| 0 <= i < client.len() implies !server.contains(#[trigger] client[i]) by {
                        if i > 0 {
                            assert(client[i] == rest[i - 1]);
                        }
                    }
                },
            }
        }
    }
}

/// Once a connection has a negotiated method, later KEXINITs change neither
/// it nor the recorded KEXINIT of either side.
pub proof fn law_negotiation_is_final(
    s: (Option<Seq<Seq<char>>>, Option<Seq<Seq<char>>>, Option<Seq<char>>),
    forward: bool,
    kex: Seq<Seq<char>>,
)
    requires
        s.0 is Some,
        s.1 is Some,
        s.2 is Some,
    ensures
        ssh_session_after(s, forward, kex) == s,
{
}

/// The negotiated method of a connection is offered in both of its KEXINITs.
pub proof fn law_negotiated_method_offered_by_both(
    s: (Option<Seq<Seq<char>>>, Option<Seq<Seq<char>>>, Option<Seq<char>>),
    forward: bool,
    kex: Seq<Seq<char>>,
)
    requires
        s.2 matches Some(m) ==> s.0 matches Some(c) && s.1 matches Some(v) && c.contains(m)
            && v.contains(m),
    ensures
        ({
            let t = ssh_session_after(s, forward, kex);
            t.2 matches Some(m) ==> t.0 matches Some(c) && t.1 matches Some(v) && c.contains(m)
                && v.contains(m)
        }),
{
    let s1 = if forward && s.0 is None {
        (Some(kex), s.1, s.2)
    } else if !forward && s.1 is None {
        (s.0, Some(kex), s.2)
    } else {
        s
    };
    if s1.2 is None && s1.0 is Some && s1.1 is Some {
        law_negotiated_method_is_first_common(s1.0->0, s1.1->0);
    }
}

/// After a host advertises a list of methods, its recorded methods are
/// exactly those it had plus the advertised ones, each once.
pub proof fn law_advertised_methods_recorded(items: Seq<Seq<char>>, names: Seq<Seq<char>>)
    requires
        items.no_duplicates(),
    ensures
        linked_insert_all(items, names).no_duplicates(),
        linked_insert_all(items, names).to_set() == items.to_set() + names.to_set(),
    decreases names.len(),
{
    if names.len() > 0 {
        let x = names[0];
        let next = linked_insert(items, x);
        let kept = without_name(items, x);
        broadcast use vstd::seq_lib::group_filter_ensures;
        lemma_filter_no_dup(items, x);
        assert(next.no_duplicates()) by {
            assert forall|i: int, j: int| 0 <= i < next.len() && 0 <= j < next.len() && i != j implies next[i] != next[j] by {
                if i < kept.len() && j < kept.len() {
                } else if i == kept.len() {
                    assert(kept[j] != x);
                } else {
                    assert(kept[i] != x);
                }
            }
        }
        assert(next.to_set() =~= items.to_set().insert(x)) by {
            assert forall|y: Seq<char>| next.to_set().contains(y) <==> items.to_set().insert(x).contains(y) by {
                if y != x && items.contains(y) {
                    let w = choose|w: int| 0 <= w < items.len() && items[w] == y;
                    assert(kept.contains(items[w]));
                    let v = choose|v: int| 0 <= v < kept.len() && kept[v] == y;
                    assert(next[v] == y);
                }
                if y == x {
                    assert(next[kept.len() as int] == x);
                }
                if next.to_set().contains(y) && y != x {
                    let w = choose|w: int| 0 <= w < next.len() && next[w] == y;
                    assert(w < kept.len());
                    lemma_filter_subset(items, x, w);
                    assert(items.contains(kept[w]));
                }
            }
        }
        law_advertised_methods_recorded(next, names.drop_first());
        assert(names.to_set() =~= names.drop_first().to_set().insert(x)) by {
            assert forall|y: Seq<char>| names.to_set().contains(y) <==> names.drop_first().to_set().insert(x).contains(y) by {
                if names.to_set().contains(y) && y != x {
                    let w = choose|w: int| 0 <= w < names.len() && names[w] == y;
                    assert(w > 0);
                    assert(names.drop_first()[w - 1] == y);
                }
                if names.drop_first().to_set().contains(y) {
                    let w = choose|w: int| 0 <= w < names.drop_first().len() && names.drop_first()[w] == y;
                    assert(names[w + 1] == y);
                }
                if y == x {
                    assert(names[0] == x);
                }
            }
        }
        assert(linked_insert_all(items, names).to_set() =~= items.to_set() + names.to_set());
    } else {
        assert(names.to_set() =~= Set::<Seq<char>>::empty());
        assert(items.to_set() + names.to_set() =~= items.to_set());
    }
}

proof fn lemma_filter_no_dup(items: Seq<Seq<char>>, x: Seq<char>)
    requires
        items.no_duplicates(),
    ensures
        without_name(items, x).no_duplicates(),
        forall|i: int| 0 <= i < without_name(items, x).len() ==> #[trigger] without_name(items, x)[i] != x,
    decreases items.len(),
{
    reveal_with_fuel(Seq::filter, 1);
    broadcast use vstd::seq_lib::group_filter_ensures;
    if items.len() > 0 {
        let prev = items.drop_last();
        assert(prev.no_duplicates());
        lemma_filter_no_dup(prev, x);
        let f = without_name(prev, x);
        broadcast use vstd::seq_lib::group_filter_ensures;
        if items.last() != x {
            assert(!f.contains(items.last())) by {
                if f.contains(items.last()) {
                    let w = choose|w: int| 0 <= w < f.len() && f[w] == items.last();
                    assert(prev.contains(f[w])) by {
                        lemma_filter_subset(prev, x, w);
                    }
                    let v = choose|v: int| 0 <= v < prev.len() && prev[v] == items.last();
                    assert(items[v] == items[items.len() - 1]);
                }
            }
        }
    }
}

proof fn lemma_filter_subset(items: Seq<Seq<char>>, x: Seq<char>, w: int)
    requires
        0 <= w < without_name(items, x).len(),
    ensures
        items.contains(without_name(items, x)[w]),
    decreases items.len(),
{
    reveal_with_fuel(Seq::filter, 1);
    if items.len() > 0 {
        let prev = items.drop_last();
        let f = without_name(prev, x);
        if w < f.len() {
            lemma_filter_subset(prev, x, w);
            let v = choose|v: int| 0 <= v < prev.len() && prev[v] == f[w];
            assert(items[v] == prev[v]);
        } else {
            assert(items[items.len() - 1] == items.last());
        }
    }
}

/// A segment that arrives out of order is held back, and the next
/// contiguous segment hands out both, joined in order.
pub proof fn law_out_of_order_segment_is_rejoined(
    next_seq: u32,
    buffer: Seq<u8>,
    seq: u32,
    first: Seq<u8>,
    second: Seq<u8>,
)
    requires
        seq != next_seq,
        first.len() > 0,
        second.len() > 0,
    ensures
        ({
            let (n1, b1, o1) = join_step(next_seq, buffer, seq, first);
            let (n2, b2, o2) = join_step(n1, b1, seq_after(seq, first.len()), second);
            &&& o1 is None
            &&& o2 == Some(first + second)
            &&& b2.len() == 0
            &&& n2 == seq_after(seq, first.len() + second.len())
        }),
{
    let a = seq as nat;
    let m = 0x1_0000_0000nat;
    let f = (a + first.len()) as int;
    vstd::arithmetic::div_mod::lemma_add_mod_noop(f, second.len() as int, m as int);
    vstd::arithmetic::div_mod::lemma_add_mod_noop_right(f % (m as int), second.len() as int, m as int);
    vstd::arithmetic::div_mod::lemma_mod_twice(f, m as int);
    assert(((f % (m as int)) + second.len()) % (m as int) == ((a + first.len() + second.len()) as int) % (m as int));
}

/// A segment starting where the flow expects hands out everything buffered
/// followed by the segment, and leaves nothing buffered.
pub proof fn law_expected_segment_flushes_buffer(next_seq: u32, buffer: Seq<u8>, payload: Seq<u8>)
    requires
        payload.len() > 0,
    ensures
        join_step(next_seq, buffer, next_seq, payload) == (
            seq_after(next_seq, payload.len()),
            Seq::<u8>::empty(),
            Some(buffer + payload),
        ),
{
}

/// Escaped XML text holds none of `<`, `>`, `"` and `'`.
pub proof fn law_xml_escaped_has_no_markup(s: Seq<char>)
    ensures
        forall|i: int| 0 <= i < xml_escaped(s).len() ==> {
            let c = #[trigger] xml_escaped(s)[i];
            c != '<' && c != '>' && c != '"' && c != '\''
        },
    decreases s.len(),
{
    reveal_strlit("&amp;");
    reveal_strlit("&lt;");
    reveal_strlit("&gt;");
    reveal_strlit("&quot;");
    reveal_strlit("&apos;");
    if s.len() > 0 {
        law_xml_escaped_has_no_markup(s.drop_last());
        let a = xml_escaped(s.drop_last());
        let b = xml_escape_char(s.last());
        assert forall|i: int| 0 <= i < (a + b).len() implies {
            let c = #[trigger] (a + b)[i];
            c != '<' && c != '>' && c != '"' && c != '\''
        } by {
            if i >= a.len() {
                assert((a + b)[i] == b[i - a.len()]);
            } else {
                assert((a + b)[i] == a[i]);
            }
        }
    }
}

proof fn lemma_ipv4_text_shape(b: Seq<u8>)
    requires
        b.len() == 4,
    ensures
        !ipv4_text(b).contains(':'),
        ipv4_text(b).len() > 0,
        ipv4_text(b)[0] != '[',
{
    let t = ipv4_text(b);
    let d0 = decimal(b[0] as nat);
    let d1 = decimal(b[1] as nat);
    let d2 = decimal(b[2] as nat);
    let d3 = decimal(b[3] as nat);
    lemma_numeral_chars(b[0] as nat, 10);
    lemma_numeral_chars(b[1] as nat, 10);
    lemma_numeral_chars(b[2] as nat, 10);
    lemma_numeral_chars(b[3] as nat, 10);
    assert(t == d0 + seq!['.'] + d1 + seq!['.'] + d2 + seq!['.'] + d3);
    assert forall|i: int| 0 <= i < t.len() implies t[i] != ':' by {
        let a = d0.len() as int;
        let bb = a + 1 + d1.len();
        let c = bb + 1 + d2.len();
        if i < a {
            assert(t[i] == d0[i]);
            assert(is_digit(d0[i]));
        } else if i == a {
        } else if i < bb {
            assert(t[i] == d1[i - a - 1]);
            assert(is_digit(d1[i - a - 1]));
        } else if i == bb {
        } else if i < c {
            assert(t[i] == d2[i - bb - 1]);
            assert(is_digit(d2[i - bb - 1]));
        } else if i == c {
        } else {
            assert(t[i] == d3[i - c - 1]);
            assert(is_digit(d3[i - c - 1]));
        }
    }
    assert(t[0] == d0[0]);
    assert(is_digit(d0[0]));
}

proof fn lemma_join_groups_first(g: Seq<int>)
    requires
        g.len() >= 1,
    ensures
        join_groups(g).len() >= 1,
        join_groups(g)[0] != '[',
        join_groups(g)[0] != ':',
        g.len() >= 2 ==> join_groups(g).contains(':'),
{
    let h = hex(g[0] as nat);
    lemma_numeral_chars(g[0] as nat, 16);
    assert(is_digit(h[0]) || ('a' <= h[0] <= 'f'));
    if g.len() == 1 {
    } else {
        let t = h + seq![':'] + join_groups(g.drop_first());
        assert(t[0] == h[0]);
        assert(t[h.len() as int] == ':');
    }
}

proof fn lemma_ipv6_text_shape(b: Seq<u8>)
    requires
        b.len() == 16,
    ensures
        ipv6_text(b).contains(':'),
        ipv6_text(b)[0] != '[',
{
    let g = ipv6_groups(b);
    let t = ipv6_text(b);
    if g.subrange(0, 5) == seq![0int, 0, 0, 0, 0] && g[5] == 0xffff {
        assert(t[0] == ':');
    } else {
        let (start, len) = longest_zero_run(g);
        if len > 1 {
            let x = join_groups(g.subrange(0, start));
            let y = join_groups(g.subrange(start + len, 8));
            assert(t == x + seq![':', ':'] + y);
            assert(t[x.len() as int] == ':');
            if x.len() == 0 {
                assert(t[0] == ':');
            } else {
                assert(g.subrange(0, start).len() != 0);
                lemma_join_groups_first(g.subrange(0, start));
                assert(t[0] == x[0]);
            }
        } else {
            lemma_join_groups_first(g);
        }
    }
}

/// An endpoint written as `address:port`, with an IPv6 address in brackets,
/// reads back as the same address and port.
pub proof fn law_socket_text_reads_back(b: Seq<u8>, port: u16)
    requires
        b.len() == 4 || b.len() == 16,
    ensures
        split_endpoint(socket_text(ip_text(b), port)) == Some((ip_text(b), port)),
{
    let ip = ip_text(b);
    if b.len() == 4 {
        lemma_ipv4_text_shape(b);
        assert(socket_text(ip, port) == ip + seq![':'] + decimal(port as nat));
        lemma_split_host_port(ip, port);
    } else {
        lemma_ipv6_text_shape(b);
        let host = seq!['['] + ip + seq![']'];
        assert(socket_text(ip, port) =~= host + seq![':'] + decimal(port as nat));
        lemma_split_host_port(host, port);
        assert(host.subrange(1, host.len() - 1) =~= ip);
    }
}

/// A TLS endpoint key (`address:port`, no brackets) reads back as its
/// address and port when the address is IPv4, and does not read as an
/// endpoint when it is IPv6.
pub proof fn law_tls_key_reads_back_only_for_ipv4(b: Seq<u8>, port: u16)
    requires
        b.len() == 4 || b.len() == 16,
    ensures
        split_endpoint(endpoint_text(b, port)) == (if b.len() == 4 {
            Some((ip_text(b), port))
        } else {
            None
        }),
{
    let ip = ip_text(b);
    lemma_split_host_port(ip, port);
    if b.len() == 4 {
        lemma_ipv4_text_shape(b);
    } else {
        lemma_ipv6_text_shape(b);
    }
}

/// A host's verdict reads `PQC Supported` exactly when the host is counted
/// among those supporting post-quantum key exchange, and every host so
/// counted is among the hosts of the capture.
pub proof fn law_verdicts_match_pqc_hosts(
    v: CaptureView,
    kex: Map<Seq<char>, KexView>,
    groups: Map<u16, GroupView>,
    h: Seq<char>,
)
    ensures
        v.1.1.contains_key(h) ==> (ssh_verdicts(v.1.1, kex)[h] == PQC_SUPPORTED@
            <==> ssh_pqc_hosts(v.1.1, kex).contains(h)),
        key_hosts(v.2.1).contains(h) ==> (tls_verdicts(v.2.0, v.2.1, groups)[h] == PQC_SUPPORTED@
            <==> keyshare_pqc_hosts(v.2.1, groups).contains(h)),
        capture_pqc_hosts(v, kex, groups).subset_of(capture_hosts(v)),
{
    reveal_strlit("PQC Supported");
    reveal_strlit("No Support");
    assert(PQC_SUPPORTED@ != "No Support"@) by {
        assert(PQC_SUPPORTED@[0] != "No Support"@[0]);
    }
    assert forall|x: Seq<char>| keyshare_pqc_hosts(v.2.1, groups).contains(x) implies key_hosts(
        v.2.1,
    ).contains(x) by {
        let k = choose|k: Seq<char>|
            #[trigger] v.2.1.contains_key(k) && crate::summary::key_host(k) == x
                && crate::summary::key_group_pqc(v.2.1[k], groups);
    }
}

proof fn lemma_two_digits(n: nat)
    requires
        1 <= n <= 99,
    ensures
        two_digits(n).len() == 2,
        digits_value(two_digits(n)) == n,
{
    lemma_decimal_value(n);
    let d = decimal(n);
    if n < 10 {
        assert(d.len() == 1);
        let t = two_digits(n);
        assert(t == seq!['0'] + d);
        assert(t.drop_last() =~= seq!['0']);
        assert(seq!['0'].drop_last() =~= Seq::<char>::empty());
        assert(digits_value(Seq::<char>::empty()) == 0);
        assert(seq!['0'].last() == '0');
        assert('0' as nat == 48);
        assert(digits_value(seq!['0']) == 0);
        assert(d.drop_last() =~= Seq::<char>::empty());
        assert(t.last() == d.last());
    } else {
        assert(n / 10 < 10);
        assert(decimal(n / 10).len() == 1);
    }
}

/// Distinct attempts at a free report file name try distinct names.
pub proof fn law_candidate_names_distinct(stem: Seq<char>, ext: Option<Seq<char>>, n: nat, m: nat)
    requires
        1 <= n <= 99,
        1 <= m <= 99,
        n != m,
    ensures
        candidate_name(stem, ext, n) != candidate_name(stem, ext, m),
{
    lemma_two_digits(n);
    lemma_two_digits(m);
    let a = candidate_name(stem, ext, n);
    let b = candidate_name(stem, ext, m);
    let lo: int = stem.len() as int + 1;
    assert(a.subrange(lo, lo + 2) =~= two_digits(n));
    assert(b.subrange(lo, lo + 2) =~= two_digits(m));
}

/// The error a scan result carries.
pub open spec fn result_error(r: ScanResult) -> Option<String> {
    match r {
        ScanResult::Ssh { error, .. } => error,
        ScanResult::Tls { error, .. } => error,
    }
}

/// Whether a scan result found post-quantum support.
pub open spec fn result_pqc(r: ScanResult) -> bool {
    match r {
        ScanResult::Ssh { pqc_supported, .. } => pqc_supported,
        ScanResult::Tls { pqc_supported, .. } => pqc_supported,
    }
}

/// A section counts its results, those of them without an error as
/// successful, and those that found post-quantum support; so every result
/// of the section that carries an error adds one to the failed count.
pub proof fn law_section_counts_count_results(rs: Seq<ScanResult>, tls: bool)
    ensures
        section_counts(rs, tls).0 == rs.filter(|r: ScanResult| in_section(r, tls)).len(),
        section_counts(rs, tls).1 == rs.filter(
            |r: ScanResult| in_section(r, tls) && result_error(r) is None,
        ).len(),
        section_counts(rs, tls).2 == rs.filter(|r: ScanResult| in_section(r, tls) && result_pqc(r)).len(),
        section_counts(rs, tls).0 - section_counts(rs, tls).1 == rs.filter(
            |r: ScanResult| in_section(r, tls) && result_error(r) is Some,
        ).len(),
    decreases rs.len(),
{
    reveal_with_fuel(Seq::filter, 1);
    if rs.len() > 0 {
        law_section_counts_count_results(rs.drop_last(), tls);
    }
}

/// An address with a key that offers a known TLS group flagged post-quantum
/// or hybrid is judged `PQC Supported` and counted among the hosts that
/// support post-quantum key exchange.
pub proof fn law_pqc_group_marks_address_supported(
    v: CaptureView,
    kex: Map<Seq<char>, KexView>,
    groups: Map<u16, GroupView>,
    k: Seq<char>,
    id: u16,
)
    requires
        v.2.1.contains_key(k),
        v.2.1[k].contains(id),
        groups.contains_key(id),
        groups[id].2 || groups[id].3,
    ensures
        ({
            let ip = crate::summary::key_host(k);
            &&& tls_verdicts(v.2.0, v.2.1, groups).contains_key(ip)
            &&& tls_verdicts(v.2.0, v.2.1, groups)[ip] == PQC_SUPPORTED@
            &&& capture_pqc_hosts(v, kex, groups).contains(ip)
        }),
{
    let ip = crate::summary::key_host(k);
    assert(crate::summary::key_group_pqc(v.2.1[k], groups));
    assert(key_hosts(v.2.1).contains(ip));
    assert(keyshare_pqc_hosts(v.2.1, groups).contains(ip));
}

/// A TLS session counts as post-quantum exactly when it is in the table and
/// settled on a known group flagged post-quantum or hybrid; the count of such
/// sessions over any order of keys is therefore the number of keys whose
/// chosen group carries one of those flags.
pub proof fn law_tls_session_counted_by_group_flags(
    s: Map<TlsKeyView, u16>,
    groups: Map<u16, GroupView>,
    order: Seq<TlsKeyView>,
)
    ensures
        forall|k: TlsKeyView|
            #[trigger] tls_session_pqc(s, groups, k) <==> (s.contains_key(k) && groups.contains_key(
                s[k],
            ) && (groups[s[k]].2 || groups[s[k]].3)),
        order.filter(|k: TlsKeyView| tls_session_pqc(s, groups, k)).len() == order.filter(
            |k: TlsKeyView|
                s.contains_key(k) && groups.contains_key(s[k]) && (groups[s[k]].2 || groups[s[k]].3),
        ).len(),
{
    let f = |k: TlsKeyView| tls_session_pqc(s, groups, k);
    let g = |k: TlsKeyView|
        s.contains_key(k) && groups.contains_key(s[k]) && (groups[s[k]].2 || groups[s[k]].3);
    assert(f =~= g);
}

/// Two records that agree everywhere except inside the session id (whose
/// length byte they share).
pub open spec fn same_but_session_id(d1: Seq<u8>, d2: Seq<u8>) -> bool {
    &&& d1.len() == d2.len()
    &&& d1.len() > 43
    &&& d1[43] == d2[43]
    &&& forall|i: int| 0 <= i < d1.len() && !(44 <= i < 44 + d1[43]) ==> d1[i] == d2[i]
}

/// The cipher suite a ServerHello selects is the big-endian value right
/// after its session id, at offset 44 plus the session id length.
pub proof fn law_server_hello_cipher_follows_session_id(d: Seq<u8>)
    ensures
        server_hello_result(d) matches Ok((cipher, _)) ==> d.len() >= 47 + d[43] && cipher
            == be16(d[44 + d[43]], d[45 + d[43]]),
{
}

/// What a ServerHello selects does not depend on the bytes of its session
/// id.
pub proof fn law_server_hello_ignores_session_id_bytes(d1: Seq<u8>, d2: Seq<u8>)
    requires
        same_but_session_id(d1, d2),
        !server_hello_overreads(d1),
    ensures
        server_hello_result(d1) == server_hello_result(d2),
{
    let n = d1.len() as int;
    let sid = d1[43] as int;
    if n >= 47 && d1[5] == 2 && n >= 47 + sid {
        assert(d1[5] == d2[5]);
        assert(d1[44 + sid] == d2[44 + sid]);
        assert(d1[45 + sid] == d2[45 + sid]);
        assert(n >= 49 + sid);
        assert(d1[47 + sid] == d2[47 + sid]);
        assert(d1[48 + sid] == d2[48 + sid]);
        let e0 = 49 + sid;
        let e1 = e0 + be16(d1[47 + sid], d1[48 + sid]);
        if n >= e1 {
            assert(d1.subrange(e0, e1) =~= d2.subrange(e0, e1));
        }
    } else if n >= 47 {
        assert(d1[5] == d2[5]);
    }
}

/// The cipher suites a ClientHello offers are read from the list that
/// follows its session id: the list length is the big-endian value at
/// offset 44 plus the session id length, and suite `i` is the big-endian
/// value `2 i` bytes past that length field.
pub proof fn law_client_hello_ciphers_follow_session_id(d: Seq<u8>)
    ensures
        client_hello_result(d) matches Ok((ciphers, _)) ==> {
            let at = 44 + d[43];
            let len = be16(d[at], d[at + 1]);
            &&& at + 2 + len <= d.len()
            &&& ciphers.len() == (len + 1) / 2
            &&& forall|i: int|
                0 <= i < ciphers.len() ==> #[trigger] ciphers[i] == be16(
                    d[at + 2 + 2 * i],
                    d[at + 3 + 2 * i],
                ) as u16
        },
{
}

proof fn lemma_share_groups_frame(d1: Seq<u8>, d2: Seq<u8>, ks: int, lim: int)
    requires
        0 <= ks,
        forall|i: int| ks <= i < lim ==> d1[i] == d2[i],
    ensures
        client_share_groups(d1, ks, lim) == client_share_groups(d2, ks, lim),
    decreases lim - ks,
{
    if ks + 4 <= lim {
        assert(d1[ks] == d2[ks] && d1[ks + 1] == d2[ks + 1]);
        assert(d1[ks + 2] == d2[ks + 2] && d1[ks + 3] == d2[ks + 3]);
        let next = ks + 4 + be16(d1[ks + 2], d1[ks + 3]);
        if next <= lim {
            lemma_share_groups_frame(d1, d2, next, lim);
        }
    }
}

proof fn lemma_ext_groups_frame(d1: Seq<u8>, d2: Seq<u8>, off: int, end: int)
    requires
        0 <= off,
        forall|i: int| off <= i < end ==> d1[i] == d2[i],
    ensures
        client_ext_groups(d1, off, end) == client_ext_groups(d2, off, end),
    decreases end - off,
{
    if off + 4 <= end {
        assert(d1[off] == d2[off] && d1[off + 1] == d2[off + 1]);
        assert(d1[off + 2] == d2[off + 2] && d1[off + 3] == d2[off + 3]);
        let body = off + 4;
        let len = be16(d1[off + 2], d1[off + 3]);
        if body + len <= end {
            if len >= 2 {
                lemma_share_groups_frame(d1, d2, body + 2, body + len);
            }
            lemma_ext_groups_frame(d1, d2, body + len, end);
        }
    }
}

/// What a ClientHello offers does not depend on the bytes of its session
/// id.
pub proof fn law_client_hello_ignores_session_id_bytes(d1: Seq<u8>, d2: Seq<u8>)
    requires
        same_but_session_id(d1, d2),
        !client_hello_overreads(d1),
    ensures
        client_hello_result(d1) == client_hello_result(d2),
{
    let n = d1.len() as int;
    let at = 44 + d1[43];
    if n >= 34 && 43 < n && at + 2 <= n {
        assert(d1[at] == d2[at] && d1[at + 1] == d2[at + 1]);
        let len = be16(d1[at], d1[at + 1]);
        let start = at + 2;
        if start + len <= n {
            let comp = start + 2 * ((len + 1) / 2);
            if comp < n {
                assert(d1[comp] == d2[comp]);
                let elp = comp + 1 + d1[comp];
                if elp + 2 <= n {
                    assert(d1[elp] == d2[elp] && d1[elp + 1] == d2[elp + 1]);
                    let e0 = elp + 2;
                    let e1 = e0 + be16(d1[elp], d1[elp + 1]);
                    if e1 <= n {
                        lemma_ext_groups_frame(d1, d2, e0, e1);
                        let c1 = crate::tls_wire::cipher_list(d1, start, len);
                        let c2 = crate::tls_wire::cipher_list(d2, start, len);
                        assert forall|k: int| 0 <= k < c1.len() implies c1[k] == c2[k] by {
                            assert(start + 2 * k + 1 < n);
                            assert(d1[start + 2 * k] == d2[start + 2 * k]);
                            assert(d1[start + 2 * k + 1] == d2[start + 2 * k + 1]);
                        }
                        assert(c1 =~= c2);
                    }
                }
            }
        }
    }
}

/// `part` occurs in `s` as a run of consecutive characters.
pub open spec fn has_infix(s: Seq<char>, part: Seq<char>) -> bool {
    exists|p: int| 0 <= p && p + part.len() <= s.len() && #[trigger] s.subrange(p, p + part.len()) == part
}

proof fn lemma_infix_left(a: Seq<char>, b: Seq<char>, x: Seq<char>)
    requires
        has_infix(a, x),
    ensures
        has_infix(a + b, x),
{
    let p = choose|p: int| 0 <= p && p + x.len() <= a.len() && #[trigger] a.subrange(p, p + x.len()) == x;
    assert((a + b).subrange(p, p + x.len()) =~= a.subrange(p, p + x.len()));
}

proof fn lemma_infix_right(a: Seq<char>, b: Seq<char>, x: Seq<char>)
    requires
        has_infix(b, x),
    ensures
        has_infix(a + b, x),
{
    let p = choose|p: int| 0 <= p && p + x.len() <= b.len() && #[trigger] b.subrange(p, p + x.len()) == x;
    let q = p + a.len();
    assert((a + b).subrange(q, q + x.len()) =~= b.subrange(p, p + x.len()));
}

proof fn lemma_infix_self(x: Seq<char>)
    ensures
        has_infix(x, x),
{
    assert(x.subrange(0, 0int + x.len()) =~= x);
}

proof fn lemma_result_in_results(rs: Seq<ScanResult>, j: int)
    requires
        0 <= j < rs.len(),
        rs[j] is Tls,
    ensures
        has_infix(xml_results(rs, true), xml_result(rs[j])),
    decreases rs.len(),
{
    let prev = rs.drop_last();
    let tail = if in_section(rs.last(), true) {
        xml_result(rs.last())
    } else {
        Seq::empty()
    };
    assert(xml_results(rs, true) == xml_results(prev, true) + tail);
    if j == rs.len() - 1 {
        lemma_infix_self(xml_result(rs[j]));
        lemma_infix_right(xml_results(prev, true), tail, xml_result(rs[j]));
    } else {
        assert(prev[j] == rs[j]);
        lemma_result_in_results(prev, j);
        lemma_infix_left(xml_results(prev, true), tail, xml_result(rs[j]));
    }
}

proof fn lemma_host_in_host_results(
    hosts: Seq<Seq<char>>,
    m: Map<Seq<char>, Seq<ScanResult>>,
    i: int,
    x: Seq<char>,
)
    requires
        0 <= i < hosts.len(),
        m.contains_key(hosts[i]),
        has_infix(xml_results(m[hosts[i]], true), x),
    ensures
        has_infix(xml_host_results(hosts, m, true), x),
    decreases hosts.len(),
{
    let prev = hosts.drop_last();
    let tail = if m.contains_key(hosts.last()) {
        xml_results(m[hosts.last()], true)
    } else {
        Seq::empty()
    };
    assert(xml_host_results(hosts, m, true) == xml_host_results(prev, m, true) + tail);
    if i == hosts.len() - 1 {
        lemma_infix_right(xml_host_results(prev, m, true), tail, x);
    } else {
        assert(prev[i] == hosts[i]);
        lemma_host_in_host_results(prev, m, i, x);
        lemma_infix_left(xml_host_results(prev, m, true), tail, x);
    }
}

#[verifier::spinoff_prover]
proof fn lemma_tls_section_in_report(r: &ReportResults, x: Seq<char>)
    requires
        has_infix(xml_host_results(r.tls_sorted_hosts.order(), r.tls_results@, true), x),
    ensures
        has_infix(xml_report(r), x),
{
    let before = "<?xml version=\"1.0\" encoding=\"UTF-8\"?>"@ + "\n<pqcscan_report>\n"@
        + "  <summary>\n"@ + crate::scan_report::xml_summary_line(
        "ssh"@,
        r.ssh_total_count,
        r.ssh_success_count,
        r.ssh_fail_count,
        r.ssh_pqc_supported_count,
    ) + crate::scan_report::xml_summary_line(
        "tls"@,
        r.tls_total_count,
        r.tls_success_count,
        r.tls_fail_count,
        r.tls_pqc_supported_count,
    ) + "  </summary>\n"@ + "  <scan_windows>\n"@ + crate::scan_report::xml_windows(
        r.scan_windows@,
    ) + "  </scan_windows>\n"@ + "  <results>\n"@ + xml_host_results(
        r.ssh_sorted_hosts.order(),
        r.ssh_results@,
        false,
    );
    let sect = xml_host_results(r.tls_sorted_hosts.order(), r.tls_results@, true);
    assert(xml_report(r) == before + sect + "  </results>\n"@ + "</pqcscan_report>\n"@);
    lemma_infix_right(before, sect, x);
    lemma_infix_left(before + sect, "  </results>\n"@, x);
    lemma_infix_left(before + sect + "  </results>\n"@, "</pqcscan_report>\n"@, x);
}

#[verifier::spinoff_prover]
proof fn lemma_tls_result_head(res: ScanResult)
    requires
        res is Tls,
    ensures
        xml_result(res).len() >= 29,
        xml_result(res).subrange(0, 29) == "    <result scan_type=\"tls\">\n"@,
{
    reveal_strlit("    <result scan_type=\"");
    reveal_strlit("tls");
    reveal_strlit("\">\n");
    reveal_strlit("    <result scan_type=\"tls\">\n");
    let head = "    <result scan_type=\""@ + "tls"@ + "\">\n"@;
    assert(head =~= "    <result scan_type=\"tls\">\n"@);
    if let ScanResult::Tls { targetspec, addr, error, pqc_supported, pqc_algos, hybrid_algos, nonpqc_algos } = res {
        let whole = crate::scan_report::xml_result_element(
            "tls"@,
            targetspec,
            addr,
            error,
            pqc_supported,
            pqc_algos,
            hybrid_algos,
            nonpqc_algos,
        );
        assert(xml_result(res) == whole);
        assert(head.len() == 29);
        assert(whole.subrange(0, 29) =~= head);
    }
}

/// Every TLS result listed for a host of the report's TLS hosts appears in
/// the XML report as a `result` element of scan type `tls`.
pub proof fn law_xml_report_lists_every_tls_result(r: &ReportResults, i: int, j: int)
    requires
        0 <= i < r.tls_sorted_hosts.order().len(),
        r.tls_results@.contains_key(r.tls_sorted_hosts.order()[i]),
        0 <= j < r.tls_results@[r.tls_sorted_hosts.order()[i]].len(),
        r.tls_results@[r.tls_sorted_hosts.order()[i]][j] is Tls,
    ensures
        ({
            let res = r.tls_results@[r.tls_sorted_hosts.order()[i]][j];
            &&& has_infix(xml_report(r), xml_result(res))
            &&& xml_result(res).subrange(0, 29) == "    <result scan_type=\"tls\">\n"@
        }),
{
    let hosts = r.tls_sorted_hosts.order();
    let m = r.tls_results@;
    let res = m[hosts[i]][j];
    lemma_result_in_results(m[hosts[i]], j);
    lemma_host_in_host_results(hosts, m, i, xml_result(res));
    lemma_tls_section_in_report(r, xml_result(res));
    lemma_tls_result_head(res);
}

} // verus!
