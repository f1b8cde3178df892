//! Slicing captured link-layer frames down to their IP addresses and TCP
//! segment.

use vstd::prelude::*;
use etherparse::{NetSlice, SlicedPacket, TransportSlice};
use crate::ip::IpAddress;

verus! {

/// The TCP header fields and payload of a segment.
pub struct TcpFields {
    pub src_port: u16,
    pub dst_port: u16,
    pub seq: u32,
    pub payload: Vec<u8>,
}

/// What a frame carries above the link layer: its IP source and destination
/// (for IPv4 and IPv6), and its TCP segment.
pub struct FrameLayers {
    pub addrs: Option<(IpAddress, IpAddress)>,
    pub tcp: Option<TcpFields>,
}

/// Addresses as bytes and TCP fields as plain values.
pub open spec fn layers_view(l: FrameLayers) -> (Option<(Seq<u8>, Seq<u8>)>, Option<(u16, u16, u32, Seq<u8>)>) {
    (
        match l.addrs {
            Some((s, d)) => Some((s@, d@)),
            None => None,
        },
        match l.tcp {
            Some(t) => Some((t.src_port, t.dst_port, t.seq, t.payload@)),
            None => None,
        },
    )
}

/// What etherparse's `SlicedPacket::from_ethernet` finds in an Ethernet II
/// frame (`None` when slicing fails).
pub uninterp spec fn ethernet_frame_layers(frame: Seq<u8>) -> Option<(Option<(Seq<u8>, Seq<u8>)>, Option<(u16, u16, u32, Seq<u8>)>)>;

/// What etherparse's `SlicedPacket::from_linux_sll` finds in a Linux cooked
/// capture frame (`None` when slicing fails).
pub uninterp spec fn linux_sll_frame_layers(frame: Seq<u8>) -> Option<(Option<(Seq<u8>, Seq<u8>)>, Option<(u16, u16, u32, Seq<u8>)>)>;

/// Slices an Ethernet II frame with etherparse's `SlicedPacket::from_ethernet`
/// and copies out the IP addresses and the TCP segment.
#[verifier::external_body]
pub(crate) fn slice_ethernet_frame(frame: &[u8]) -> (r: Option<FrameLayers>)
    ensures
        ethernet_frame_layers(frame@) == match r {
            Some(l) => Some(layers_view(l)),
            None => None,
        },
{
    let p = SlicedPacket::from_ethernet(frame).ok()?;
    let addrs = match &p.net {
        Some(NetSlice::Ipv4(v)) => Some((IpAddress::V4(v.header().source()), IpAddress::V4(v.header().destination()))),
        Some(NetSlice::Ipv6(v)) => Some((IpAddress::V6(v.header().source()), IpAddress::V6(v.header().destination()))),
        _ => None,
    };
    let tcp = match &p.transport {
        Some(TransportSlice::Tcp(t)) => Some(TcpFields { src_port: t.source_port(), dst_port: t.destination_port(), seq: t.sequence_number(), payload: t.payload().to_vec() }),
        _ => None,
    };
    Some(FrameLayers { addrs, tcp })
}

/// Slices a Linux cooked capture frame with etherparse's
/// `SlicedPacket::from_linux_sll` and copies out the IP addresses and the TCP
/// segment.
#[verifier::external_body]
pub(crate) fn slice_linux_sll_frame(frame: &[u8]) -> (r: Option<FrameLayers>)
    ensures
        linux_sll_frame_layers(frame@) == match r {
            Some(l) => Some(layers_view(l)),
            None => None,
        },
{
    let p = SlicedPacket::from_linux_sll(frame).ok()?;
    let addrs = match &p.net {
        Some(NetSlice::Ipv4(v)) => Some((IpAddress::V4(v.header().source()), IpAddress::V4(v.header().destination()))),
        Some(NetSlice::Ipv6(v)) => Some((IpAddress::V6(v.header().source()), IpAddress::V6(v.header().destination()))),
        _ => None,
    };
    let tcp = match &p.transport {
        Some(TransportSlice::Tcp(t)) => Some(TcpFields { src_port: t.source_port(), dst_port: t.destination_port(), seq: t.sequence_number(), payload: t.payload().to_vec() }),
        _ => None,
    };
    Some(FrameLayers { addrs, tcp })
}

} // verus!
