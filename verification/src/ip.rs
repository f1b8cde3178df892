//! Network-layer addresses and their textual forms.

use vstd::prelude::*;
use crate::text::{push_char, push_numeral, decimal, hex};
use crate::wire::be16;

verus! {

/// An IPv4 or IPv6 address, held as its network-order bytes.
#[derive(Clone, Copy, Debug, PartialEq, Eq, Hash)]
pub enum IpAddress {
    V4([u8; 4]),
    V6([u8; 16]),
}

impl View for IpAddress {
    type V = Seq<u8>;

    /// The address bytes: four for IPv4, sixteen for IPv6.
    open spec fn view(&self) -> Seq<u8> {
        match self {
            IpAddress::V4(b) => b@,
            IpAddress::V6(b) => b@,
        }
    }
}

/// Dotted-decimal text of four address bytes (`Ipv4Addr`'s display form).
pub open spec fn ipv4_text(b: Seq<u8>) -> Seq<char> {
    decimal(b[0] as nat) + seq!['.'] + decimal(b[1] as nat) + seq!['.'] + decimal(b[2] as nat)
        + seq!['.'] + decimal(b[3] as nat)
}

/// The eight 16-bit groups of sixteen IPv6 address bytes.
pub open spec fn ipv6_groups(b: Seq<u8>) -> Seq<int> {
    Seq::new(8, |i: int| be16(b[2 * i], b[2 * i + 1]))
}

/// Scans `g[i..]` for runs of zero groups; the result is the start and
/// length of the first longest run, given the run in progress and the best
/// run found before `i`.
pub open spec fn zero_run_scan(g: Seq<int>, i: int, cur_start: int, cur_len: int, best_start: int, best_len: int) -> (int, int)
    decreases g.len() - i,
{
    if i >= g.len() {
        (best_start, best_len)
    } else if g[i] == 0 {
        let cs = if cur_len == 0 { i } else { cur_start };
        let cl = cur_len + 1;
        if cl > best_len {
            zero_run_scan(g, i + 1, cs, cl, cs, cl)
        } else {
            zero_run_scan(g, i + 1, cs, cl, best_start, best_len)
        }
    } else {
        zero_run_scan(g, i + 1, 0, 0, best_start, best_len)
    }
}

/// Start and length of the first longest run of zero groups (length 0 when
/// there is none).
pub open spec fn longest_zero_run(g: Seq<int>) -> (int, int) {
    zero_run_scan(g, 0, 0, 0, 0, 0)
}

/// Hexadecimal groups joined by colons.
pub open spec fn join_groups(g: Seq<int>) -> Seq<char>
    decreases g.len(),
{
    if g.len() == 0 {
        Seq::empty()
    } else if g.len() == 1 {
        hex(g[0] as nat)
    } else {
        hex(g[0] as nat) + seq![':'] + join_groups(g.drop_first())
    }
}

/// The text of an IPv6 address as Rust's `Ipv6Addr` displays it: an
/// IPv4-mapped address as `::ffff:` and dotted decimal, otherwise lower-case
/// hexadecimal groups with the first longest run of two or more zero groups
/// shortened to `::` (RFC 5952).
pub open spec fn ipv6_text(b: Seq<u8>) -> Seq<char> {
    let g = ipv6_groups(b);
    if g.subrange(0, 5) == seq![0int, 0, 0, 0, 0] && g[5] == 0xffff {
        seq![':', ':', 'f', 'f', 'f', 'f', ':'] + ipv4_text(b.subrange(12, 16))
    } else {
        let (start, len) = longest_zero_run(g);
        if len > 1 {
            join_groups(g.subrange(0, start)) + seq![':', ':'] + join_groups(
                g.subrange(start + len, 8),
            )
        } else {
            join_groups(g)
        }
    }
}

/// The text of the address with the given bytes: dotted decimal for four
/// bytes, the IPv6 form otherwise.
pub open spec fn ip_text(b: Seq<u8>) -> Seq<char> {
    if b.len() == 4 {
        ipv4_text(b)
    } else {
        ipv6_text(b)
    }
}

/// Two addresses are equal exactly when their bytes are.
pub proof fn lemma_ip_view_injective(a: IpAddress, b: IpAddress)
    ensures
        (a == b) <==> (a@ == b@),
{
    match (a, b) {
        (IpAddress::V4(x), IpAddress::V4(y)) => {
            if x@ == y@ {
                assert(x =~= y);
            }
        },
        (IpAddress::V6(x), IpAddress::V6(y)) => {
            if x@ == y@ {
                assert(x =~= y);
            }
        },
        (IpAddress::V4(x), IpAddress::V6(y)) => {
            assert(x@.len() != y@.len());
        },
        (IpAddress::V6(x), IpAddress::V4(y)) => {
            assert(x@.len() != y@.len());
        },
    }
}

fn push_ipv4(s: &mut String, b0: u8, b1: u8, b2: u8, b3: u8)
    ensures
        final(s)@ == old(s)@ + ipv4_text(seq![b0, b1, b2, b3]),
{
    push_numeral(s, b0 as u64, 10);
    push_char(s, '.');
    push_numeral(s, b1 as u64, 10);
    push_char(s, '.');
    push_numeral(s, b2 as u64, 10);
    push_char(s, '.');
    push_numeral(s, b3 as u64, 10);
    assert(final(s)@ =~= old(s)@ + ipv4_text(seq![b0, b1, b2, b3]));
}

fn push_groups(s: &mut String, g: &[u16; 8], from: usize, to: usize)
    requires
        from <= to <= 8,
    ensures
        final(s)@ == old(s)@ + join_groups(g@.map_values(|x: u16| x as int).subrange(
            from as int,
            to as int,
        )),
    decreases to - from,
{
    let ghost gs = g@.map_values(|x: u16| x as int);
    if from == to {
        assert(gs.subrange(from as int, to as int) =~= Seq::<int>::empty());
        return;
    }
    push_numeral(s, g[from] as u64, 16);
    if to - from > 1 {
        push_char(s, ':');
        push_groups(s, g, from + 1, to);
        assert(gs.subrange(from as int, to as int).drop_first() =~= gs.subrange(
            from + 1,
            to as int,
        ));
    }
    assert(final(s)@ =~= old(s)@ + join_groups(gs.subrange(from as int, to as int)));
}

fn push_ipv6(s: &mut String, b: &[u8; 16])
    ensures
        final(s)@ == old(s)@ + ipv6_text(b@),
{
    let mut g: [u16; 8] = [0u16; 8];
    let mut i: usize = 0;
    while i < 8
        invariant
            i <= 8,
            forall|j: int| 0 <= j < i ==> g@[j] as int == be16(b@[2 * j], b@[2 * j + 1]),
        decreases 8 - i,
    {
        let v = ((b[2 * i] as u16) << 8) | (b[2 * i + 1] as u16);
        let hi = b[2 * i];
        let lo = b[2 * i + 1];
        assert(v == hi as int * 256 + lo as int) by (bit_vector)
            requires
                v == ((hi as u16) << 8) | (lo as u16),
        ;
        g[i] = v;
        i = i + 1;
    }
    let ghost gs = g@.map_values(|x: u16| x as int);
    assert(gs =~= ipv6_groups(b@));
    if g[0] == 0 && g[1] == 0 && g[2] == 0 && g[3] == 0 && g[4] == 0 && g[5] == 0xffff {
        assert(gs.subrange(0, 5) =~= seq![0int, 0, 0, 0, 0]);
        push_char(s, ':');
        push_char(s, ':');
        push_char(s, 'f');
        push_char(s, 'f');
        push_char(s, 'f');
        push_char(s, 'f');
        push_char(s, ':');
        push_ipv4(s, b[12], b[13], b[14], b[15]);
        assert(b@.subrange(12, 16) =~= seq![b@[12], b@[13], b@[14], b@[15]]);
        assert(final(s)@ =~= old(s)@ + ipv6_text(b@));
        return;
    }
    assert(!(gs.subrange(0, 5) == seq![0int, 0, 0, 0, 0] && gs[5] == 0xffff)) by {
        if gs.subrange(0, 5) == seq![0int, 0, 0, 0, 0] {
            assert(gs[0] == gs.subrange(0, 5)[0]);
            assert(gs[1] == gs.subrange(0, 5)[1]);
            assert(gs[2] == gs.subrange(0, 5)[2]);
            assert(gs[3] == gs.subrange(0, 5)[3]);
            assert(gs[4] == gs.subrange(0, 5)[4]);
        }
    }
    let mut cur_start: usize = 0;
    let mut cur_len: usize = 0;
    let mut best_start: usize = 0;
    let mut best_len: usize = 0;
    let mut k: usize = 0;
    while k < 8
        invariant
            k <= 8,
            gs == g@.map_values(|x: u16| x as int),
            gs.len() == 8,
            cur_len <= k,
            cur_start + cur_len == k || cur_len == 0,
            best_start + best_len <= k,
            longest_zero_run(gs) == zero_run_scan(
                gs,
                k as int,
                cur_start as int,
                cur_len as int,
                best_start as int,
                best_len as int,
            ),
        decreases 8 - k,
    {
        if g[k] == 0 {
            if cur_len == 0 {
                cur_start = k;
            }
            cur_len = cur_len + 1;
            if cur_len > best_len {
                best_start = cur_start;
                best_len = cur_len;
            }
        } else {
            cur_start = 0;
            cur_len = 0;
        }
        k = k + 1;
    }
    if best_len > 1 {
        push_groups(s, &g, 0, best_start);
        push_char(s, ':');
        push_char(s, ':');
        push_groups(s, &g, best_start + best_len, 8);
    } else {
        push_groups(s, &g, 0, 8);
        assert(gs.subrange(0, 8) =~= gs);
    }
    assert(final(s)@ =~= old(s)@ + ipv6_text(b@));
}

impl IpAddress {
    /// Whether two addresses are the same address of the same family.
    pub fn same_as(&self, other: &IpAddress) -> (b: bool)
        ensures
            b == (*self == *other),
    {
        match (self, other) {
            (IpAddress::V4(a), IpAddress::V4(b)) => {
                let mut i: usize = 0;
                while i < 4
                    invariant
                        i <= 4,
                        *self == IpAddress::V4(*a),
                        *other == IpAddress::V4(*b),
                        forall|j: int| 0 <= j < i ==> a@[j] == b@[j],
                    decreases 4 - i,
                {
                    if a[i] != b[i] {
                        assert(*a != *b) by {
                            if *a == *b {
                                assert(a@[i as int] == b@[i as int]);
                            }
                        }
                        assert(*self != *other);
                        return false;
                    }
                    i = i + 1;
                }
                assert(a@ =~= b@);
                assert(*a == *b);
                true
            },
            (IpAddress::V6(a), IpAddress::V6(b)) => {
                let mut i: usize = 0;
                while i < 16
                    invariant
                        i <= 16,
                        *self == IpAddress::V6(*a),
                        *other == IpAddress::V6(*b),
                        forall|j: int| 0 <= j < i ==> a@[j] == b@[j],
                    decreases 16 - i,
                {
                    if a[i] != b[i] {
                        assert(*a != *b) by {
                            if *a == *b {
                                assert(a@[i as int] == b@[i as int]);
                            }
                        }
                        assert(*self != *other);
                        return false;
                    }
                    i = i + 1;
                }
                assert(a@ =~= b@);
                assert(*a == *b);
                true
            },
            _ => false,
        }
    }

    /// The textual form of the address.
    pub fn to_text(&self) -> (s: String)
        ensures
            s@ == ip_text(self@),
    {
        let mut s = String::new();
        match self {
            IpAddress::V4(b) => push_ipv4(&mut s, b[0], b[1], b[2], b[3]),
            IpAddress::V6(b) => push_ipv6(&mut s, b),
        }
        proof {
            if let IpAddress::V4(b) = self {
                assert(b@ =~= seq![b@[0], b@[1], b@[2], b@[3]]);
            }
        }
        assert(s@ =~= ip_text(self@));
        s
    }
}

} // verus!
