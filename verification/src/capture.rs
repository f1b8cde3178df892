//! Following every packet of a capture: each TCP segment, and each run of
//! joined segments, is examined for SSH KEXINIT messages and TLS hellos.

use vstd::prelude::*;
use crate::ip::{IpAddress, ip_text};
use crate::net::{ethernet_frame_layers, linux_sll_frame_layers, slice_ethernet_frame, slice_linux_sll_frame};
use crate::ssh::{FlowKey, SshSession, HostCapabilities, SSH_MSG_KEXINIT, process_ssh, ssh_effect};
use crate::table::{Table, IdSet};
use crate::tcp::{TcpFlowKey, TcpReassembler, join_step, joiner_before};
use crate::tls::{TlsSessionKey, TlsView, hello_overreads, process_ssl_hello, tls_effect};

verus! {

/// A payload that starts like a TLS handshake record of SSL 3.0 up to TLS 1.3.
pub open spec fn is_tls_record(p: Seq<u8>) -> bool {
    p.len() > 5 && p[0] == 0x16 && p[1] == 0x03 && p[2] <= 0x04
}

/// Examining the payload would read a TLS hello past its end.
pub open spec fn payload_overreads(p: Seq<u8>) -> bool {
    is_tls_record(p) && hello_overreads(p)
}

/// The SSH tables: sessions by flow and advertised methods by host.
pub type SshView = (
    Map<(Seq<char>, Seq<char>), (Option<Seq<Seq<char>>>, Option<Seq<Seq<char>>>, Option<Seq<char>>)>,
    Map<Seq<char>, Seq<Seq<char>>>,
);

/// The SSH and TLS tables after examining a payload of at least six bytes
/// sent from `src:sport` to `dst:dport`: byte 5 holding message number 20
/// makes it a KEXINIT candidate, and a TLS record header makes it a hello
/// candidate.
pub open spec fn payload_effect(ssh: SshView, tls: TlsView, src: Seq<u8>, dst: Seq<u8>, sport: u16, dport: u16, p: Seq<u8>) -> (SshView, TlsView) {
    (
        if p[5] == SSH_MSG_KEXINIT {
            ssh_effect(ssh.0, ssh.1, ip_text(src), ip_text(dst), sport, dport, p)
        } else {
            ssh
        },
        if is_tls_record(p) {
            tls_effect(tls, src, dst, sport, dport, p)
        } else {
            tls
        },
    )
}

/// Why a packet could not be examined.
#[derive(Clone, Copy, Debug, PartialEq, Eq, Structural)]
pub enum CaptureError {
    /// A TLS hello in the segment, or in the joined segments, is cut off
    /// where reading it would go past its end.
    TruncatedHello,
}

/// All state gathered from a capture.
pub struct CaptureState {
    pub reassembler: TcpReassembler,
    pub ssh_sessions: Table<FlowKey, SshSession>,
    pub host_caps: Table<String, HostCapabilities>,
    pub tls_ciphers: Table<String, IdSet>,
    pub keyshare_groups: Table<String, IdSet>,
    pub tls_sessions: Table<TlsSessionKey, u16>,
}

/// The reassembly state and the SSH and TLS tables.
pub type CaptureView = (Map<(Seq<char>, Seq<char>, u16, u16), (u32, Seq<u8>)>, SshView, TlsView);

impl View for CaptureState {
    type V = CaptureView;

    open spec fn view(&self) -> CaptureView {
        (
            self.reassembler@,
            (self.ssh_sessions@, self.host_caps@),
            (self.tls_ciphers@, self.keyshare_groups@, self.tls_sessions@),
        )
    }
}

/// The layers etherparse finds in a frame of the given link type.
pub open spec fn packet_layers(frame: Seq<u8>, linux_sll: bool) -> Option<(Option<(Seq<u8>, Seq<u8>)>, Option<(u16, u16, u32, Seq<u8>)>)> {
    if linux_sll {
        linux_sll_frame_layers(frame)
    } else {
        ethernet_frame_layers(frame)
    }
}

/// The state after a frame, and whether it could be examined. Frames that
/// are not IP over TCP, or whose payload is shorter than six bytes, change
/// nothing. Otherwise the payload is examined, then handed to its flow's
/// joiner, and joined bytes handed back are examined too.
pub open spec fn capture_step(v: CaptureView, frame: Seq<u8>, linux_sll: bool) -> (CaptureView, bool) {
    match packet_layers(frame, linux_sll) {
        Some((Some((src, dst)), Some((sport, dport, seq, p)))) => {
            if p.len() < 6 {
                (v, true)
            } else if payload_overreads(p) {
                (v, false)
            } else {
                let (ssh1, tls1) = payload_effect(v.1, v.2, src, dst, sport, dport, p);
                let key = (ip_text(src), ip_text(dst), sport, dport);
                let (j_seq, j_buf) = joiner_before(v.0, key, seq);
                let (n, b, out) = join_step(j_seq, j_buf, seq, p);
                let r1 = v.0.insert(key, (n, b));
                match out {
                    None => ((r1, ssh1, tls1), true),
                    Some(data) => if payload_overreads(data) {
                        ((r1, ssh1, tls1), false)
                    } else {
                        let (ssh2, tls2) = payload_effect(ssh1, tls1, src, dst, sport, dport, data);
                        ((r1, ssh2, tls2), true)
                    },
                }
            }
        },
        _ => (v, true),
    }
}

impl CaptureState {
    /// A state that has seen no packet.
    pub fn new() -> (s: Self)
        ensures
            s@.0 == Map::<(Seq<char>, Seq<char>, u16, u16), (u32, Seq<u8>)>::empty(),
            s@.1.0.is_empty(),
            s@.1.1.is_empty(),
            s@.2.0.is_empty(),
            s@.2.1.is_empty(),
            s@.2.2.is_empty(),
    {
        CaptureState {
            reassembler: TcpReassembler::new(),
            ssh_sessions: Table::new(),
            host_caps: Table::new(),
            tls_ciphers: Table::new(),
            keyshare_groups: Table::new(),
            tls_sessions: Table::new(),
        }
    }

    fn process_packet_helper(&mut self, src: &IpAddress, dst: &IpAddress, sport: u16, dport: u16, payload: &[u8])
        requires
            payload@.len() >= 6,
            !payload_overreads(payload@),
        ensures
            (final(self)@.1, final(self)@.2) == payload_effect(
                old(self)@.1,
                old(self)@.2,
                src@,
                dst@,
                sport,
                dport,
                payload@,
            ),
            final(self)@.0 == old(self)@.0,
    {
        if payload[5] == SSH_MSG_KEXINIT {
            let src_text = src.to_text();
            let dst_text = dst.to_text();
            process_ssh(
                src_text.as_str(),
                dst_text.as_str(),
                sport,
                dport,
                payload,
                &mut self.ssh_sessions,
                &mut self.host_caps,
            );
        }
        if payload.len() > 5 && payload[0] == 0x16 && payload[1] == 0x03 && payload[2] <= 0x04 {
            process_ssl_hello(
                src,
                dst,
                sport,
                dport,
                payload,
                &mut self.tls_ciphers,
                &mut self.keyshare_groups,
                &mut self.tls_sessions,
            );
        }
    }

    /// Examines one captured frame; `linux_sll` selects Linux cooked capture
    /// framing instead of Ethernet II.
    pub fn process_packet(&mut self, frame: &[u8], linux_sll: bool) -> (r: Result<(), CaptureError>)
        ensures
            (final(self)@, r is Ok) == capture_step(old(self)@, frame@, linux_sll),
    {
        let layers = if linux_sll {
            slice_linux_sll_frame(frame)
        } else {
            slice_ethernet_frame(frame)
        };
        let layers = match layers {
            Some(l) => l,
            None => return Ok(()),
        };
        let (src, dst) = match layers.addrs {
            Some(a) => a,
            None => return Ok(()),
        };
        let tcp = match layers.tcp {
            Some(t) => t,
            None => return Ok(()),
        };
        let key = TcpFlowKey::new(src.to_text(), dst.to_text(), tcp.src_port, tcp.dst_port);
        let payload = tcp.payload.as_slice();
        if payload.len() < 6 {
            return Ok(());
        }
        if payload_overreads_exec(payload) {
            return Err(CaptureError::TruncatedHello);
        }
        self.process_packet_helper(&src, &dst, tcp.src_port, tcp.dst_port, payload);
        if let Some(data) = self.reassembler.push(key, tcp.seq, payload) {
            if payload_overreads_exec(data.as_slice()) {
                return Err(CaptureError::TruncatedHello);
            }
            self.process_packet_helper(&src, &dst, tcp.src_port, tcp.dst_port, data.as_slice());
        }
        Ok(())
    }
}

/// Whether examining `p` would read a TLS hello past its end.
pub fn payload_overreads_exec(p: &[u8]) -> (b: bool)
    ensures
        b == payload_overreads(p@),
{
    if !(p.len() > 5 && p[0] == 0x16 && p[1] == 0x03 && p[2] <= 0x04) {
        return false;
    }
    (p[5] == 0x01 && crate::tls_wire::client_hello_overreads_exec(p)) || (p[5] == 0x02
        && crate::tls_wire::server_hello_overreads_exec(p))
}

} // verus!
