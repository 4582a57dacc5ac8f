//! Link-layer parsing: pulling the source address and the TCP destination
//! port out of a captured Ethernet frame carrying IPv4 or IPv6.

use vstd::prelude::*;
use crate::strings::format_ipv4;
use crate::strings::format_ipv6;
use crate::strings::ipv4_str;
use crate::strings::ipv6_str;

verus! {

/// What one captured SYN frame yields.
pub struct PacketInfo {
    /// The source address, dotted-quad for IPv4, colon-hex for IPv6.
    pub source_ip: String,
    /// The TCP destination port.
    pub destination_port: u16,
}

/// A packet's yield as the contracts see it.
#[verifier::ext_equal]
pub struct PacketModel {
    pub source_ip: Seq<char>,
    pub destination_port: u16,
}

impl View for PacketInfo {
    type V = PacketModel;

    open spec fn view(&self) -> PacketModel {
        PacketModel { source_ip: self.source_ip@, destination_port: self.destination_port }
    }
}

/// The big-endian 16-bit value at offset `i`.
pub open spec fn be16(p: Seq<u8>, i: int) -> int {
    (p[i] as int) * 256 + (p[i + 1] as int)
}

/// What parsing an IPv4 payload (after the Ethernet header) yields: the
/// source address from bytes 12 to 15 and the TCP destination port right
/// after the variable-length IPv4 header.
pub open spec fn spec_parse_ipv4(p: Seq<u8>) -> Option<PacketModel> {
    if p.len() < 24 {
        None
    } else {
        let ihl = (p[0] & 0x0f) * 4;
        if ihl < 20 || p.len() < ihl + 4 {
            None
        } else {
            Some(
                PacketModel {
                    source_ip: ipv4_str(p[12], p[13], p[14], p[15]),
                    destination_port: be16(p, ihl + 2) as u16,
                },
            )
        }
    }
}

/// What parsing an IPv6 payload (after the Ethernet header) yields: the
/// source address from bytes 8 to 23 and the TCP destination port right
/// after the fixed 40-byte IPv6 header.
pub open spec fn spec_parse_ipv6(p: Seq<u8>) -> Option<PacketModel> {
    if p.len() < 44 {
        None
    } else {
        Some(
            PacketModel {
                source_ip: ipv6_str(
                    be16(p, 8) as u16,
                    be16(p, 10) as u16,
                    be16(p, 12) as u16,
                    be16(p, 14) as u16,
                    be16(p, 16) as u16,
                    be16(p, 18) as u16,
                    be16(p, 20) as u16,
                    be16(p, 22) as u16,
                ),
                destination_port: be16(p, 42) as u16,
            },
        )
    }
}

/// What parsing a whole Ethernet frame yields: the EtherType at bytes 12
/// and 13 selects IPv4 or IPv6; anything else, or a frame too short for
/// an Ethernet, IPv4 and TCP header, yields nothing.
pub open spec fn spec_parse_ethernet(p: Seq<u8>) -> Option<PacketModel> {
    if p.len() < 38 {
        None
    } else if p[12] == 0x08 && p[13] == 0x00 {
        spec_parse_ipv4(p.skip(14))
    } else if p[12] == 0x86 && p[13] == 0xdd {
        spec_parse_ipv6(p.skip(14))
    } else {
        None
    }
}

/// Parses a captured Ethernet frame carrying IPv4 or IPv6 over TCP.
pub fn parse_ethernet_ip_packet(packet: &[u8]) -> (r: Option<PacketInfo>)
    ensures
        (r is Some <==> spec_parse_ethernet(packet@) is Some),
        (r is Some ==> r->0@ == spec_parse_ethernet(packet@)->0),
{
    if packet.len() < 14 + 20 + 4 {
        return None;
    }
    if packet[12] == 0x08 && packet[13] == 0x00 {
        let payload = &packet[14..packet.len()];
        proof {
            assert(payload@ =~= packet@.skip(14));
        }
        parse_ipv4_packet(payload)
    } else if packet[12] == 0x86 && packet[13] == 0xdd {
        let payload = &packet[14..packet.len()];
        proof {
            assert(payload@ =~= packet@.skip(14));
        }
        parse_ipv6_packet(payload)
    } else {
        None
    }
}

/// Parses the IPv4 payload of a frame.
fn parse_ipv4_packet(packet: &[u8]) -> (r: Option<PacketInfo>)
    ensures
        (r is Some <==> spec_parse_ipv4(packet@) is Some),
        (r is Some ==> r->0@ == spec_parse_ipv4(packet@)->0),
{
    if packet.len() < 20 + 4 {
        return None;
    }
    let b0: u8 = packet[0];
    let ihl_raw: u8 = b0 & 0x0f;
    proof {
        assert(ihl_raw <= 15) by (bit_vector)
            requires
                ihl_raw == b0 & 0x0f,
        ;
    }
    let ihl: usize = (ihl_raw as usize) * 4;
    if ihl < 20 || packet.len() < ihl + 4 {
        return None;
    }
    let source_ip = format_ipv4(packet[12], packet[13], packet[14], packet[15]);
    let destination_port: u16 = (packet[ihl + 2] as u16) * 256 + (packet[ihl + 3] as u16);
    Some(PacketInfo { source_ip, destination_port })
}

/// Parses the IPv6 payload of a frame.
fn parse_ipv6_packet(packet: &[u8]) -> (r: Option<PacketInfo>)
    ensures
        (r is Some <==> spec_parse_ipv6(packet@) is Some),
        (r is Some ==> r->0@ == spec_parse_ipv6(packet@)->0),
{
    if packet.len() < 40 + 4 {
        return None;
    }
    let source_ip = format_ipv6(
        (packet[8] as u16) * 256 + (packet[9] as u16),
        (packet[10] as u16) * 256 + (packet[11] as u16),
        (packet[12] as u16) * 256 + (packet[13] as u16),
        (packet[14] as u16) * 256 + (packet[15] as u16),
        (packet[16] as u16) * 256 + (packet[17] as u16),
        (packet[18] as u16) * 256 + (packet[19] as u16),
        (packet[20] as u16) * 256 + (packet[21] as u16),
        (packet[22] as u16) * 256 + (packet[23] as u16),
    );
    let destination_port: u16 = (packet[40 + 2] as u16) * 256 + (packet[40 + 3] as u16);
    Some(PacketInfo { source_ip, destination_port })
}

} // verus!
