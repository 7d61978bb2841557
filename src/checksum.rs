//! The Internet checksums of IPv4 headers and of TCP segments and UDP
//! datagrams over IPv4 and IPv6,
//! as smoltcp computes them.
use vstd::prelude::*;

verus! {

/// Big-endian 16-bit value at `i`.
pub open spec fn be16(b: Seq<u8>, i: int) -> int {
    b[i] as int * 256 + b[i + 1] as int
}

/// The bytes with the 16-bit field at `off` cleared.
pub open spec fn zero16(b: Seq<u8>, off: int) -> Seq<u8> {
    b.update(off, 0u8).update(off + 1, 0u8)
}

/// The header checksum that smoltcp writes into an IPv4 header.
pub uninterp spec fn ipv4_header_checksum(header: Seq<u8>) -> u16;

/// The checksum that smoltcp writes into a TCP segment sent from `src` to `dst`.
pub uninterp spec fn tcp_checksum(src: u32, dst: u32, segment: Seq<u8>) -> u16;

/// The checksum that smoltcp writes into a UDP datagram sent from `src` to `dst`.
pub uninterp spec fn udp_checksum(src: u32, dst: u32, datagram: Seq<u8>) -> u16;

/// Relies on smoltcp's `Ipv4Packet::fill_checksum`, which clears the checksum
/// field, sums the header and writes the complement back; the result depends
/// on the header bytes alone, with that field read as zero.
#[verifier::external_body]
pub(crate) fn compute_ipv4_header_checksum(header: &[u8]) -> (r: u16)
    requires
        20 <= header@.len() <= 60,
        (header@[0] % 16) * 4 == header@.len(),
    ensures
        r == ipv4_header_checksum(zero16(header@, 10)),
{
    let mut buf = header.to_vec();
    let mut packet = smoltcp::wire::Ipv4Packet::new_unchecked(&mut buf[..]);
    packet.fill_checksum();
    packet.checksum()
}

/// Relies on smoltcp's `TcpPacket::fill_checksum`: the checksum over the IPv4
/// pseudo-header and the whole segment, with the checksum field read as zero.
#[verifier::external_body]
pub(crate) fn compute_tcp_checksum(src: u32, dst: u32, segment: &[u8]) -> (r: u16)
    requires
        20 <= segment@.len() <= 0xffff,
    ensures
        r == tcp_checksum(src, dst, zero16(segment@, 16)),
{
    let src_addr = smoltcp::wire::IpAddress::Ipv4(smoltcp::wire::Ipv4Address(src.to_be_bytes()));
    let dst_addr = smoltcp::wire::IpAddress::Ipv4(smoltcp::wire::Ipv4Address(dst.to_be_bytes()));
    let mut buf = segment.to_vec();
    let mut packet = smoltcp::wire::TcpPacket::new_unchecked(&mut buf[..]);
    packet.fill_checksum(&src_addr, &dst_addr);
    packet.checksum()
}

/// Relies on smoltcp's `UdpPacket::fill_checksum`: the checksum over the IPv4
/// pseudo-header and the datagram, with the checksum field read as zero; the
/// length field must not exceed the buffer, which smoltcp slices by it.
#[verifier::external_body]
pub(crate) fn compute_udp_checksum(src: u32, dst: u32, datagram: &[u8]) -> (r: u16)
    requires
        8 <= datagram@.len() <= 0xffff,
        be16(datagram@, 4) == datagram@.len(),
    ensures
        r == udp_checksum(src, dst, zero16(datagram@, 6)),
{
    let src_addr = smoltcp::wire::IpAddress::Ipv4(smoltcp::wire::Ipv4Address(src.to_be_bytes()));
    let dst_addr = smoltcp::wire::IpAddress::Ipv4(smoltcp::wire::Ipv4Address(dst.to_be_bytes()));
    let mut buf = datagram.to_vec();
    let mut packet = smoltcp::wire::UdpPacket::new_unchecked(&mut buf[..]);
    packet.fill_checksum(&src_addr, &dst_addr);
    packet.checksum()
}

/// The checksum that smoltcp writes into a TCP segment sent from `src` to
/// `dst` over IPv6.
pub uninterp spec fn tcp6_checksum(src: u128, dst: u128, segment: Seq<u8>) -> u16;

/// The checksum that smoltcp writes into a UDP datagram sent from `src` to
/// `dst` over IPv6.
pub uninterp spec fn udp6_checksum(src: u128, dst: u128, datagram: Seq<u8>) -> u16;

/// Relies on smoltcp's `TcpPacket::fill_checksum` with IPv6 addresses: the
/// checksum over the IPv6 pseudo-header and the whole segment, with the
/// checksum field read as zero.
#[verifier::external_body]
pub(crate) fn compute_tcp6_checksum(src: u128, dst: u128, segment: &[u8]) -> (r: u16)
    requires
        20 <= segment@.len() <= 0xffff,
    ensures
        r == tcp6_checksum(src, dst, zero16(segment@, 16)),
{
    let src_addr = smoltcp::wire::IpAddress::Ipv6(smoltcp::wire::Ipv6Address(src.to_be_bytes()));
    let dst_addr = smoltcp::wire::IpAddress::Ipv6(smoltcp::wire::Ipv6Address(dst.to_be_bytes()));
    let mut buf = segment.to_vec();
    let mut packet = smoltcp::wire::TcpPacket::new_unchecked(&mut buf[..]);
    packet.fill_checksum(&src_addr, &dst_addr);
    packet.checksum()
}

/// Relies on smoltcp's `UdpPacket::fill_checksum` with IPv6 addresses: the
/// checksum over the IPv6 pseudo-header and the datagram, with the checksum
/// field read as zero; the length field must not exceed the buffer.
#[verifier::external_body]
pub(crate) fn compute_udp6_checksum(src: u128, dst: u128, datagram: &[u8]) -> (r: u16)
    requires
        8 <= datagram@.len() <= 0xffff,
        be16(datagram@, 4) == datagram@.len(),
    ensures
        r == udp6_checksum(src, dst, zero16(datagram@, 6)),
{
    let src_addr = smoltcp::wire::IpAddress::Ipv6(smoltcp::wire::Ipv6Address(src.to_be_bytes()));
    let dst_addr = smoltcp::wire::IpAddress::Ipv6(smoltcp::wire::Ipv6Address(dst.to_be_bytes()));
    let mut buf = datagram.to_vec();
    let mut packet = smoltcp::wire::UdpPacket::new_unchecked(&mut buf[..]);
    packet.fill_checksum(&src_addr, &dst_addr);
    packet.checksum()
}

} // verus!
