//! Joining consecutive TCP segments of a flow, so that a handshake message
//! split over several segments can be read as one buffer.

use vstd::prelude::*;

verus! {

/// Addresses and ports of one direction of a TCP connection.
#[derive(Clone, Debug, PartialEq, Eq, Hash)]
pub struct TcpFlowKey {
    src: String,
    dst: String,
    sport: u16,
    dport: u16,
}

impl View for TcpFlowKey {
    type V = (Seq<char>, Seq<char>, u16, u16);

    closed spec fn view(&self) -> (Seq<char>, Seq<char>, u16, u16) {
        (self.src@, self.dst@, self.sport, self.dport)
    }
}

impl TcpFlowKey {
    /// A key for the segments sent from `src:sport` to `dst:dport`.
    pub fn new(src: String, dst: String, sport: u16, dport: u16) -> (k: Self)
        ensures
            k@ == (src@, dst@, sport, dport),
    {
        Self { src, dst, sport, dport }
    }

    /// Whether two keys name the same flow direction.
    pub fn same_as(&self, other: &TcpFlowKey) -> (b: bool)
        ensures
            b == (self@ == other@),
    {
        self.sport == other.sport && self.dport == other.dport && self.src == other.src && self.dst
            == other.dst
    }
}

/// The next expected sequence number after `len` bytes starting at `seq`,
/// modulo 2^32 as TCP sequence numbers wrap.
pub open spec fn seq_after(seq: u32, len: nat) -> u32 {
    ((seq as nat + len) % 0x1_0000_0000) as u32
}

/// One step of joining: the next expected sequence number and buffer after a
/// segment, and the joined bytes handed out, if any. An empty segment changes
/// nothing; the expected segment is appended to the buffered bytes, all of
/// which are handed out; any other segment replaces the buffer.
pub open spec fn join_step(next_seq: u32, buffer: Seq<u8>, seq: u32, payload: Seq<u8>) -> (u32, Seq<u8>, Option<Seq<u8>>) {
    if payload.len() == 0 {
        (next_seq, buffer, None)
    } else if seq == next_seq {
        (seq_after(next_seq, payload.len()), Seq::empty(), Some(buffer + payload))
    } else {
        (seq_after(seq, payload.len()), payload, None)
    }
}

/// The reassembly state of one flow direction.
pub struct TcpJoiner {
    next_seq: u32,
    buffer: Vec<u8>,
}

impl View for TcpJoiner {
    type V = (u32, Seq<u8>);

    /// The next expected sequence number and the bytes held back.
    closed spec fn view(&self) -> (u32, Seq<u8>) {
        (self.next_seq, self.buffer@)
    }
}

impl TcpJoiner {
    /// A joiner that expects sequence number `seq` next and holds nothing.
    pub fn new(seq: u32) -> (j: Self)
        ensures
            j@ == (seq, Seq::<u8>::empty()),
    {
        Self { next_seq: seq, buffer: Vec::new() }
    }

    /// Takes the segment starting at sequence number `seq`; returns the
    /// joined bytes when it is the expected one.
    pub fn push(&mut self, seq: u32, payload: &[u8]) -> (out: Option<Vec<u8>>)
        ensures
            ({
                let (n, b, o) = join_step(old(self)@.0, old(self)@.1, seq, payload@);
                &&& final(self)@ == (n, b)
                &&& match o {
                    Some(bytes) => out matches Some(v) && v@ == bytes,
                    None => out is None,
                }
            }),
    {
        if payload.len() == 0 {
            return None;
        }
        let plen = payload.len() as u64;
        let len = plen as u32;
        assert(len == plen % 0x1_0000_0000) by (bit_vector)
            requires
                len == plen as u32,
        ;
        if seq == self.next_seq {
            self.buffer.extend_from_slice(payload);
            let next = self.next_seq.wrapping_add(len);
            self.next_seq = next;
            let mut joined: Vec<u8> = Vec::new();
            std::mem::swap(&mut joined, &mut self.buffer);
            assert(joined@ =~= old(self)@.1 + payload@);
            return Some(joined);
        }
        self.buffer.clear();
        self.buffer.extend_from_slice(payload);
        self.next_seq = seq.wrapping_add(len);
        None
    }
}

/// The joiner state of each flow held in a list of (key, joiner) pairs.
pub open spec fn flow_map(s: Seq<(TcpFlowKey, TcpJoiner)>) -> Map<(Seq<char>, Seq<char>, u16, u16), (u32, Seq<u8>)> {
    Map::new(
        |k: (Seq<char>, Seq<char>, u16, u16)| exists|i: int| 0 <= i < s.len() && s[i].0@ == k,
        |k: (Seq<char>, Seq<char>, u16, u16)|
            s[choose|i: int| 0 <= i < s.len() && s[i].0@ == k].1@,
    )
}

/// No flow key occurs twice in the list.
pub open spec fn keys_unique(s: Seq<(TcpFlowKey, TcpJoiner)>) -> bool {
    forall|i: int, j: int| 0 <= i < s.len() && 0 <= j < s.len() && i != j ==> s[i].0@ != s[j].0@
}

proof fn lemma_flow_lookup(s: Seq<(TcpFlowKey, TcpJoiner)>, i: int)
    requires
        keys_unique(s),
        0 <= i < s.len(),
    ensures
        flow_map(s).contains_key(s[i].0@),
        flow_map(s)[s[i].0@] == s[i].1@,
{
    let k = s[i].0@;
    assert(exists|j: int| 0 <= j < s.len() && s[j].0@ == k);
    let w = choose|j: int| 0 <= j < s.len() && s[j].0@ == k;
    assert(w == i);
}

/// Joins the segments of every flow direction seen so far.
pub struct TcpReassembler {
    flows: Vec<(TcpFlowKey, TcpJoiner)>,
}

impl TcpReassembler {
    #[verifier::type_invariant]
    spec fn inv(self) -> bool {
        keys_unique(self.flows@)
    }
}

impl View for TcpReassembler {
    type V = Map<(Seq<char>, Seq<char>, u16, u16), (u32, Seq<u8>)>;

    /// The joiner state of each flow direction seen so far.
    closed spec fn view(&self) -> Map<(Seq<char>, Seq<char>, u16, u16), (u32, Seq<u8>)> {
        flow_map(self.flows@)
    }
}

/// The joiner state that a segment of flow `key` starting at `seq` meets:
/// the recorded one, or a fresh joiner expecting `seq` for a new flow.
pub open spec fn joiner_before(flows: Map<(Seq<char>, Seq<char>, u16, u16), (u32, Seq<u8>)>, key: (Seq<char>, Seq<char>, u16, u16), seq: u32) -> (u32, Seq<u8>) {
    if flows.contains_key(key) {
        flows[key]
    } else {
        (seq, Seq::empty())
    }
}

impl TcpReassembler {
    /// A reassembler that has seen no flow.
    pub fn new() -> (r: Self)
        ensures
            r@ == Map::<(Seq<char>, Seq<char>, u16, u16), (u32, Seq<u8>)>::empty(),
    {
        let r = Self { flows: Vec::new() };
        assert(r@ =~= Map::<(Seq<char>, Seq<char>, u16, u16), (u32, Seq<u8>)>::empty());
        r
    }

    /// Takes a segment of flow `key`; a flow seen for the first time starts
    /// with a joiner expecting `seq`. Returns the joined bytes when the
    /// segment is the one its flow expects.
    pub fn push(&mut self, key: TcpFlowKey, seq: u32, payload: &[u8]) -> (out: Option<Vec<u8>>)
        ensures
            ({
                let (j_seq, j_buf) = joiner_before(old(self)@, key@, seq);
                let (n, b, o) = join_step(j_seq, j_buf, seq, payload@);
                &&& final(self)@ == old(self)@.insert(key@, (n, b))
                &&& match o {
                    Some(bytes) => out matches Some(v) && v@ == bytes,
                    None => out is None,
                }
            }),
    {
        proof {
            use_type_invariant(&*self);
        }
        let mut flows: Vec<(TcpFlowKey, TcpJoiner)> = Vec::new();
        std::mem::swap(&mut flows, &mut self.flows);
        let ghost s0 = flows@;
        let mut pos: usize = 0;
        let mut found = false;
        let mut i: usize = 0;
        while i < flows.len()
            invariant
                flows@ == s0,
                keys_unique(s0),
                i <= s0.len(),
                found ==> pos < s0.len() && s0[pos as int].0@ == key@,
                !found ==> forall|j: int| 0 <= j < i ==> s0[j].0@ != key@,
            decreases s0.len() - i,
        {
            if !found && flows[i].0.same_as(&key) {
                found = true;
                pos = i;
            }
            i = i + 1;
        }
        let i = pos;
        let (k, mut joiner) = if found {
            flows.remove(i)
        } else {
            (key, TcpJoiner::new(seq))
        };
        let ghost j0 = joiner@;
        proof {
            if found {
                lemma_flow_lookup(s0, i as int);
            } else {
                assert(!flow_map(s0).contains_key(k@));
            }
            assert(k@ == key@);
            assert(j0 == joiner_before(flow_map(s0), key@, seq));
        }
        let out = joiner.push(seq, payload);
        let ghost j1 = joiner@;
        let ghost kv = k@;
        if found {
            flows.insert(i, (k, joiner));
        } else {
            flows.push((k, joiner));
        }
        let ghost s1 = flows@;
        proof {
            let idx = if found { i as int } else { s0.len() as int };
            assert(s1[idx].0@ == kv && s1[idx].1@ == j1);
            assert forall|j: int| 0 <= j < s1.len() && j != idx implies s1[j] == s0[j] by {}
            assert(keys_unique(s1));
            assert(flow_map(s1) =~= flow_map(s0).insert(kv, j1)) by {
                assert forall|kk: (Seq<char>, Seq<char>, u16, u16)| #![auto]
                    flow_map(s1).contains_key(kk) <==> flow_map(s0).insert(kv, j1).contains_key(kk) by {
                    if flow_map(s1).contains_key(kk) {
                        let w = choose|w: int| 0 <= w < s1.len() && s1[w].0@ == kk;
                        if w != idx {
                            assert(s0[w].0@ == kk);
                        }
                    }
                    if flow_map(s0).contains_key(kk) {
                        let w = choose|w: int| 0 <= w < s0.len() && s0[w].0@ == kk;
                        if found && w == idx {
                            assert(s1[idx].0@ == kk);
                        } else {
                            assert(s1[w].0@ == kk);
                        }
                    }
                    if kk == kv {
                        assert(s1[idx].0@ == kk);
                    }
                }
                assert forall|kk: (Seq<char>, Seq<char>, u16, u16)| #![auto]
                    flow_map(s1).contains_key(kk) implies flow_map(s1)[kk]
                        == flow_map(s0).insert(kv, j1)[kk] by {
                    let w = choose|w: int| 0 <= w < s1.len() && s1[w].0@ == kk;
                    lemma_flow_lookup(s1, w);
                    if w != idx {
                        lemma_flow_lookup(s0, w);
                    }
                }
            }
        }
        self.flows = flows;
        out
    }
}

} // verus!
