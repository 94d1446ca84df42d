//! One captured frame, down to the TCP segment it carries.

use crate::trace::flow::FlowKey;
use etherparse::{NetSlice, SlicedPacket, TransportSlice};
use vstd::prelude::*;

verus! {

/// The addresses of an IP packet.
#[allow(inconsistent_fields)]
pub enum Net {
    V4 { src: [u8; 4], dst: [u8; 4] },
    V6 { src: [u8; 16], dst: [u8; 16] },
}

/// What an IP packet carries.
pub enum Transport<'a> {
    Tcp { src_port: u16, dst_port: u16, seq: u32, payload: &'a [u8] },
    Other,
}

/// A frame taken apart: its IP layer and its transport layer, where it has them.
pub struct Packet<'a> {
    pub net: Option<Net>,
    pub transport: Option<Transport<'a>>,
}

/// A transport layer, its payload byte for byte.
pub enum TransportView {
    Tcp { src_port: u16, dst_port: u16, seq: u32, payload: Seq<u8> },
    Other,
}

/// A packet, its payload byte for byte.
pub struct PacketView {
    pub net: Option<Net>,
    pub transport: Option<TransportView>,
}

impl View for Transport<'_> {
    type V = TransportView;

    open spec fn view(&self) -> TransportView {
        match *self {
            Transport::Tcp { src_port, dst_port, seq, payload } => TransportView::Tcp {
                src_port,
                dst_port,
                seq,
                payload: payload@,
            },
            Transport::Other => TransportView::Other,
        }
    }
}

impl View for Packet<'_> {
    type V = PacketView;

    open spec fn view(&self) -> PacketView {
        PacketView {
            net: self.net,
            transport: match self.transport {
                Some(t) => Some(t@),
                None => None,
            },
        }
    }
}

/// What `etherparse` finds in a frame that starts with an Ethernet II header; nothing where it
/// rejects the frame.
pub uninterp spec fn ethernet_packet(data: Seq<u8>) -> Option<PacketView>;

/// What `etherparse` finds in data that starts with an IP header; nothing where it rejects it.
pub uninterp spec fn ip_packet(data: Seq<u8>) -> Option<PacketView>;

/// A packet behind its view, where there is one.
pub open spec fn packet_view(packet: Option<Packet>) -> Option<PacketView> {
    match packet {
        Some(p) => Some(p@),
        None => None,
    }
}

/// `etherparse::SlicedPacket::from_ethernet`, with the addresses of the IP layer and the ports,
/// sequence number and payload of a TCP layer read off the slices it returns. It is a function of
/// the bytes alone.
#[verifier::external_body]
fn slice_ethernet(data: &[u8]) -> (r: Option<Packet<'_>>)
    ensures
        packet_view(r) == ethernet_packet(data@),
{
    let s = SlicedPacket::from_ethernet(data).ok()?;
    let net = s.net.map(|n| match n {
        NetSlice::Ipv4(i) => Net::V4 { src: i.header().source(), dst: i.header().destination() },
        NetSlice::Ipv6(i) => Net::V6 { src: i.header().source(), dst: i.header().destination() },
    });
    let transport = s.transport.map(|t| match t {
        TransportSlice::Tcp(t) => Transport::Tcp {
            src_port: t.source_port(), dst_port: t.destination_port(), seq: t.sequence_number(), payload: t.payload(),
        },
        _ => Transport::Other,
    });
    Some(Packet { net, transport })
}

/// `etherparse::SlicedPacket::from_ip`, read as `slice_ethernet` reads its slices. It is a
/// function of the bytes alone.
#[verifier::external_body]
fn slice_ip(data: &[u8]) -> (r: Option<Packet<'_>>)
    ensures
        packet_view(r) == ip_packet(data@),
{
    let s = SlicedPacket::from_ip(data).ok()?;
    let net = s.net.map(|n| match n {
        NetSlice::Ipv4(i) => Net::V4 { src: i.header().source(), dst: i.header().destination() },
        NetSlice::Ipv6(i) => Net::V6 { src: i.header().source(), dst: i.header().destination() },
    });
    let transport = s.transport.map(|t| match t {
        TransportSlice::Tcp(t) => Transport::Tcp {
            src_port: t.source_port(), dst_port: t.destination_port(), seq: t.sequence_number(), payload: t.payload(),
        },
        _ => Transport::Other,
    });
    Some(Packet { net, transport })
}

/// The sixteen bytes that stand for an IPv4 address: twelve zeros, then the address.
pub open spec fn mapped(addr: Seq<u8>) -> Seq<u8> {
    seq![0u8, 0, 0, 0, 0, 0, 0, 0, 0, 0, 0, 0] + addr
}

/// IPv4 addresses live in the same 16-byte slot as IPv6 so one flow key covers both.
pub fn to16(addr: &[u8; 4]) -> (r: [u8; 16])
    ensures
        r@ == mapped(addr@),
{
    let r: [u8; 16] = [0, 0, 0, 0, 0, 0, 0, 0, 0, 0, 0, 0, addr[0], addr[1], addr[2], addr[3]];
    assert(r@ =~= mapped(addr@));
    r
}

/// Whether `key` names the flow between these addresses and ports.
pub open spec fn keys_flow(key: FlowKey, net: Net, src_port: u16, dst_port: u16) -> bool {
    &&& key.src@ == match net {
        Net::V4 { src, .. } => mapped(src@),
        Net::V6 { src, .. } => src@,
    }
    &&& key.dst@ == match net {
        Net::V4 { dst, .. } => mapped(dst@),
        Net::V6 { dst, .. } => dst@,
    }
    &&& key.src_port == src_port
    &&& key.dst_port == dst_port
}

/// The flow between these addresses and ports.
pub open spec fn flow_between(net: Net, src_port: u16, dst_port: u16) -> FlowKey {
    choose|key: FlowKey| keys_flow(key, net, src_port, dst_port)
}

/// There is only one flow between given addresses and ports.
pub proof fn lemma_flow_between(key: FlowKey, net: Net, src_port: u16, dst_port: u16)
    requires
        keys_flow(key, net, src_port, dst_port),
    ensures
        key == flow_between(net, src_port, dst_port),
{
    let other = flow_between(net, src_port, dst_port);
    assert(key.src =~= other.src && key.dst =~= other.dst) by {
        assert forall|i: int| 0 <= i < 16 implies key.src[i] == other.src[i] && key.dst[i]
            == other.dst[i] by {
            assert(key.src@[i] == other.src@[i] && key.dst@[i] == other.dst@[i]);
        }
    }
}

/// The flow, sequence number and payload of a packet: nothing unless it has an IP layer and a TCP
/// layer.
pub open spec fn segment_in(packet: PacketView) -> Option<(FlowKey, u32, Seq<u8>)> {
    match (packet.net, packet.transport) {
        (Some(net), Some(TransportView::Tcp { src_port, dst_port, seq, payload })) => Some(
            (flow_between(net, src_port, dst_port), seq, payload),
        ),
        _ => None,
    }
}

/// A segment behind its view.
pub open spec fn segment_view(r: Option<(FlowKey, u32, &[u8])>) -> Option<(FlowKey, u32, Seq<u8>)> {
    match r {
        Some((key, seq, payload)) => Some((key, seq, payload@)),
        None => None,
    }
}

/// Reads flow, sequence number and payload off a packet.
pub fn segment_of<'a>(packet: Packet<'a>) -> (r: Option<(FlowKey, u32, &'a [u8])>)
    ensures
        segment_view(r) == segment_in(packet@),
{
    let ghost net = packet.net;
    let (src, dst) = match packet.net {
        Some(Net::V4 { src, dst }) => (to16(&src), to16(&dst)),
        Some(Net::V6 { src, dst }) => (src, dst),
        None => {
            return None;
        },
    };
    match packet.transport {
        Some(Transport::Tcp { src_port, dst_port, seq, payload }) => {
            let key: FlowKey = FlowKey { src, dst, src_port, dst_port };
            proof {
                lemma_flow_between(key, net->0, src_port, dst_port);
            }
            Some((key, seq, payload))
        },
        _ => None,
    }
}

/// The packet a frame is taken for: what it is as an Ethernet frame, if that has an IP layer, else
/// what it is behind a four-byte loopback header.
pub open spec fn framed(
    ethernet: Option<PacketView>,
    ip: Option<PacketView>,
) -> Option<PacketView> {
    if ethernet is Some && ethernet->0.net is Some {
        ethernet
    } else {
        ip
    }
}

/// Picks between the two readings of a frame.
pub fn choose_framing<'a>(ethernet: Option<Packet<'a>>, ip: Option<Packet<'a>>) -> (r: Option<
    Packet<'a>,
>)
    ensures
        packet_view(r) == framed(packet_view(ethernet), packet_view(ip)),
{
    match ethernet {
        Some(packet) => {
            if packet.net.is_some() {
                Some(packet)
            } else {
                ip
            }
        },
        None => ip,
    }
}

/// What there is behind a four-byte loopback header.
pub open spec fn loopback_packet(data: Seq<u8>) -> Option<PacketView> {
    if data.len() < 4 {
        None
    } else {
        ip_packet(data.skip(4))
    }
}

/// The segment in a frame, if there is one.
pub open spec fn dissection(data: Seq<u8>) -> Option<(FlowKey, u32, Seq<u8>)> {
    match framed(ethernet_packet(data), loopback_packet(data)) {
        Some(packet) => segment_in(packet),
        None => None,
    }
}

/// Pulls (flow, sequence number, payload) out of one link-layer frame.
///
/// Loopback captures are not Ethernet (on macOS `lo0` frames carry a 4-byte null header), so both
/// framings are tried. Anything else is skipped rather than guessed at.
pub fn dissect<'a>(data: &'a [u8]) -> (r: Option<(FlowKey, u32, &'a [u8])>)
    ensures
        segment_view(r) == dissection(data@),
{
    let ip: Option<Packet<'a>> = if data.len() < 4 {
        None
    } else {
        let behind: &'a [u8] = vstd::slice::slice_subrange(data, 4, data.len());
        assert(behind@ =~= data@.skip(4));
        slice_ip(behind)
    };
    match choose_framing(slice_ethernet(data), ip) {
        Some(packet) => segment_of(packet),
        None => None,
    }
}

/// The segment of an IPv4 packet: the addresses in the last four of sixteen bytes, zeros before
/// them, source as source and destination as destination, with the packet's own ports, sequence
/// number and payload.
pub proof fn law_an_ipv4_segment_is_read_as_it_is(
    src: [u8; 4],
    dst: [u8; 4],
    src_port: u16,
    dst_port: u16,
    seq: u32,
    payload: Seq<u8>,
    key: FlowKey,
)
    requires
        forall|i: int| 0 <= i < 12 ==> #[trigger] key.src@[i] == 0,
        forall|i: int| 0 <= i < 12 ==> #[trigger] key.dst@[i] == 0,
        forall|i: int| 0 <= i < 4 ==> #[trigger] src@[i] == key.src@[12 + i],
        forall|i: int| 0 <= i < 4 ==> #[trigger] dst@[i] == key.dst@[12 + i],
        key.src_port == src_port,
        key.dst_port == dst_port,
    ensures
        segment_in(
            PacketView {
                net: Some(Net::V4 { src, dst }),
                transport: Some(TransportView::Tcp { src_port, dst_port, seq, payload }),
            },
        ) == Some((key, seq, payload)),
{
    assert(key.src@ =~= mapped(src@)) by {
        assert forall|i: int| 0 <= i < 16 implies key.src@[i] == mapped(src@)[i] by {
            if i >= 12 {
                assert(src@[i - 12] == key.src@[12 + (i - 12)]);
            }
        }
    }
    assert(key.dst@ =~= mapped(dst@)) by {
        assert forall|i: int| 0 <= i < 16 implies key.dst@[i] == mapped(dst@)[i] by {
            if i >= 12 {
                assert(dst@[i - 12] == key.dst@[12 + (i - 12)]);
            }
        }
    }
    lemma_flow_between(key, Net::V4 { src, dst }, src_port, dst_port);
}

/// The segment of an IPv6 packet, with its addresses as they are; and no segment without an IP
/// layer or without a TCP layer.
pub proof fn law_an_ipv6_segment_is_read_as_it_is(
    key: FlowKey,
    seq: u32,
    payload: Seq<u8>,
    packet: PacketView,
)
    ensures
        segment_in(
            PacketView {
                net: Some(Net::V6 { src: key.src, dst: key.dst }),
                transport: Some(
                    TransportView::Tcp {
                        src_port: key.src_port,
                        dst_port: key.dst_port,
                        seq,
                        payload,
                    },
                ),
            },
        ) == Some((key, seq, payload)),
        segment_in(packet) is Some <==> packet.net is Some && packet.transport is Some
            && packet.transport->0 is Tcp,
{
    lemma_flow_between(
        key,
        Net::V6 { src: key.src, dst: key.dst },
        key.src_port,
        key.dst_port,
    );
}

/// Ethernet comes first: a frame that is one, with an IP layer, is read as one, whatever it looks
/// like without its first four bytes. Any other frame is what it is behind those four; one that is
/// shorter is nothing.
pub proof fn law_a_frame_is_ethernet_or_loopback(data: Seq<u8>)
    ensures
        ethernet_packet(data) matches Some(packet) && packet.net is Some ==> dissection(data)
            == segment_in(ethernet_packet(data)->0),
        !(ethernet_packet(data) is Some && ethernet_packet(data)->0.net is Some) && data.len() >= 4
            && ip_packet(data.skip(4)) is Some ==> dissection(data) == segment_in(
            ip_packet(data.skip(4))->0,
        ),
        !(ethernet_packet(data) is Some && ethernet_packet(data)->0.net is Some) && (data.len() < 4
            || ip_packet(data.skip(4)) is None) ==> dissection(data) is None,
{
}

}
