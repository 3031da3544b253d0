//! Ethernet/IPv4/UDP decomposition of a raw frame, through pnet.
//!
//! Header parsing is an external collaborator: each layer is a trusted
//! wrapper whose result is a pure function of the input bytes, named by an
//! uninterpreted spec function.

use pnet::packet::Packet;
use vstd::prelude::*;

verus! {

/// What pnet's Ethernet parser yields for a frame whose ethertype is IPv4.
pub uninterp spec fn spec_ipv4_of_ethernet(frame: Seq<u8>) -> Option<Seq<u8>>;

/// What pnet's IPv4 parser yields for a packet whose next-level protocol is UDP.
pub uninterp spec fn spec_udp_of_ipv4(packet: Seq<u8>) -> Option<Seq<u8>>;

/// What pnet's UDP parser yields as the datagram payload.
pub uninterp spec fn spec_payload_of_udp(datagram: Seq<u8>) -> Option<Seq<u8>>;

/// Relies on pnet's `EthernetPacket::new`, `get_ethertype` and `payload`:
/// parses the Ethernet header and, when the ethertype is IPv4, hands back
/// the payload bytes. The result depends on the frame bytes alone.
#[verifier::external_body]
fn ipv4_of_ethernet(frame: &[u8]) -> (r: Option<Vec<u8>>)
    ensures
        r is Some <==> spec_ipv4_of_ethernet(frame@) is Some,
        r is Some ==> r->0@ == spec_ipv4_of_ethernet(frame@)->0,
{
    let eth = pnet::packet::ethernet::EthernetPacket::new(frame)?;
    if eth.get_ethertype() == pnet::packet::ethernet::EtherTypes::Ipv4 {
        Some(eth.payload().to_vec())
    } else {
        None
    }
}

/// Relies on pnet's `Ipv4Packet::new`, `get_next_level_protocol` and
/// `payload`: parses the IPv4 header and, when the next-level protocol is
/// UDP, hands back the payload bytes. The result depends on the packet
/// bytes alone.
#[verifier::external_body]
fn udp_of_ipv4(packet: &[u8]) -> (r: Option<Vec<u8>>)
    ensures
        r is Some <==> spec_udp_of_ipv4(packet@) is Some,
        r is Some ==> r->0@ == spec_udp_of_ipv4(packet@)->0,
{
    let ip = pnet::packet::ipv4::Ipv4Packet::new(packet)?;
    if ip.get_next_level_protocol() == pnet::packet::ip::IpNextHeaderProtocols::Udp {
        Some(ip.payload().to_vec())
    } else {
        None
    }
}

/// Relies on pnet's `UdpPacket::new` and `payload`: parses the UDP header
/// and hands back the datagram payload. The result depends on the datagram
/// bytes alone.
#[verifier::external_body]
fn payload_of_udp(datagram: &[u8]) -> (r: Option<Vec<u8>>)
    ensures
        r is Some <==> spec_payload_of_udp(datagram@) is Some,
        r is Some ==> r->0@ == spec_payload_of_udp(datagram@)->0,
{
    let udp = pnet::packet::udp::UdpPacket::new(datagram)?;
    Some(udp.payload().to_vec())
}

/// The UDP payload of a raw frame: Ethernet, then IPv4, then UDP, or
/// nothing when any layer is absent or of another protocol.
pub open spec fn spec_udp_payload_of_frame(frame: Seq<u8>) -> Option<Seq<u8>> {
    match spec_ipv4_of_ethernet(frame) {
        Option::None => Option::None,
        Option::Some(ip) => match spec_udp_of_ipv4(ip) {
            Option::None => Option::None,
            Option::Some(udp) => spec_payload_of_udp(udp),
        },
    }
}

/// Locates the UDP payload of a raw captured frame, if the frame is an
/// IPv4 frame carrying UDP.
pub fn udp_payload_of_frame(frame: &[u8]) -> (r: Option<Vec<u8>>)
    ensures
        r is Some <==> spec_udp_payload_of_frame(frame@) is Some,
        r is Some ==> r->0@ == spec_udp_payload_of_frame(frame@)->0,
{
    let ip = match ipv4_of_ethernet(frame) {
        Option::Some(v) => v,
        Option::None => {
            return Option::None;
        },
    };
    let udp = match udp_of_ipv4(ip.as_slice()) {
        Option::Some(v) => v,
        Option::None => {
            return Option::None;
        },
    };
    payload_of_udp(udp.as_slice())
}

} // verus!
