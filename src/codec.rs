//! IPv4 and IPv6 packets carrying TCP or UDP: parsing from and emission to
//! bytes.
use vstd::prelude::*;
use crate::checksum::{
    be16, zero16, ipv4_header_checksum, tcp_checksum, tcp6_checksum, udp_checksum, udp6_checksum,
    compute_ipv4_header_checksum, compute_tcp_checksum, compute_tcp6_checksum,
    compute_udp_checksum, compute_udp6_checksum,
};
use crate::packet::{header_len, Endpoint, IpAddr, Packet, PacketView, TcpHeader, Transport, PROTO_TCP, PROTO_UDP};

verus! {

#[derive(Clone, Copy, Debug, PartialEq, Eq, Structural)]
pub enum ParseError {
    /// Fewer bytes than a header needs.
    Truncated,
    /// Neither IPv4 nor IPv6.
    UnsupportedVersion,
    /// A length field that disagrees with the buffer.
    BadLength,
    /// Neither TCP nor UDP.
    UnsupportedProtocol,
    /// A checksum that does not match the contents.
    BadChecksum,
}

pub open spec fn be32(b: Seq<u8>, i: int) -> int {
    be16(b, i) * 0x1_0000 + be16(b, i + 2)
}

pub open spec fn be64(b: Seq<u8>, i: int) -> int {
    be32(b, i) * 0x1_0000_0000 + be32(b, i + 4)
}

pub open spec fn be128(b: Seq<u8>, i: int) -> int {
    be64(b, i) * 0x1_0000_0000_0000_0000 + be64(b, i + 8)
}

pub open spec fn is_v6(b: Seq<u8>) -> bool {
    b[0] / 16 == 6
}

pub open spec fn ip_header_len(b: Seq<u8>) -> int {
    if is_v6(b) {
        40
    } else {
        (b[0] % 16) as int * 4
    }
}

/// The end of the IP packet: the IPv4 total length, or the IPv6 header and
/// its payload length.
pub open spec fn ip_total_len(b: Seq<u8>) -> int {
    if is_v6(b) {
        40 + be16(b, 4)
    } else {
        be16(b, 2)
    }
}

/// The protocol field, or the IPv6 next header.
pub open spec fn ip_proto(b: Seq<u8>) -> u8 {
    if is_v6(b) {
        b[6]
    } else {
        b[9]
    }
}

pub open spec fn src_ip(b: Seq<u8>) -> IpAddr {
    if is_v6(b) {
        IpAddr::V6(be128(b, 8) as u128)
    } else {
        IpAddr::V4(be32(b, 12) as u32)
    }
}

pub open spec fn dst_ip(b: Seq<u8>) -> IpAddr {
    if is_v6(b) {
        IpAddr::V6(be128(b, 24) as u128)
    } else {
        IpAddr::V4(be32(b, 16) as u32)
    }
}

/// The transport segment: after the IP header, up to the end of the packet.
pub open spec fn segment(b: Seq<u8>) -> Seq<u8> {
    b.subrange(ip_header_len(b), ip_total_len(b))
}

pub open spec fn tcp_data_offset(seg: Seq<u8>) -> int {
    (seg[12] / 16) as int * 4
}

/// The TCP checksum for the family of the addresses.
pub open spec fn tcp_sum(src: IpAddr, dst: IpAddr, seg: Seq<u8>) -> u16 {
    match (src, dst) {
        (IpAddr::V4(a), IpAddr::V4(c)) => tcp_checksum(a, c, seg),
        (IpAddr::V6(a), IpAddr::V6(c)) => tcp6_checksum(a, c, seg),
        _ => 0,
    }
}

/// The UDP checksum for the family of the addresses.
pub open spec fn udp_sum(src: IpAddr, dst: IpAddr, seg: Seq<u8>) -> u16 {
    match (src, dst) {
        (IpAddr::V4(a), IpAddr::V4(c)) => udp_checksum(a, c, seg),
        (IpAddr::V6(a), IpAddr::V6(c)) => udp6_checksum(a, c, seg),
        _ => 0,
    }
}

/// A checksum field agrees with the computed value; 0x0000 and 0xffff are
/// the same number in one's-complement arithmetic.
pub open spec fn sum_matches(field: int, computed: u16) -> bool {
    field == computed as int || (field == 0xffff && computed == 0) || (field == 0 && computed == 0xffff)
}

fn same_sum(field: u16, computed: u16) -> (r: bool)
    ensures
        r == sum_matches(field as int, computed),
{
    field == computed || (field == 0xffff && computed == 0) || (field == 0 && computed == 0xffff)
}

pub open spec fn check_tcp(src: IpAddr, dst: IpAddr, seg: Seq<u8>) -> Result<(), ParseError> {
    if seg.len() < 20 {
        Err(ParseError::Truncated)
    } else if tcp_data_offset(seg) < 20 || tcp_data_offset(seg) > seg.len() {
        Err(ParseError::BadLength)
    } else if !sum_matches(be16(seg, 16), tcp_sum(src, dst, zero16(seg, 16))) {
        Err(ParseError::BadChecksum)
    } else {
        Ok(())
    }
}

/// A zero UDP checksum means that the sender computed none.
pub open spec fn check_udp(src: IpAddr, dst: IpAddr, seg: Seq<u8>) -> Result<(), ParseError> {
    if seg.len() < 8 {
        Err(ParseError::Truncated)
    } else if be16(seg, 4) != seg.len() {
        Err(ParseError::BadLength)
    } else if be16(seg, 6) != 0 && !sum_matches(be16(seg, 6), udp_sum(src, dst, zero16(seg, 6))) {
        Err(ParseError::BadChecksum)
    } else {
        Ok(())
    }
}

/// Which check, if any, the bytes fail, in the order `parse` makes them.
pub open spec fn check_packet(b: Seq<u8>) -> Result<(), ParseError> {
    if b.len() < 20 {
        Err(ParseError::Truncated)
    } else if b[0] / 16 != 4 && b[0] / 16 != 6 {
        Err(ParseError::UnsupportedVersion)
    } else if is_v6(b) && b.len() < 40 {
        Err(ParseError::Truncated)
    } else if ip_header_len(b) < 20 || ip_header_len(b) > ip_total_len(b) || ip_total_len(b) > b.len() {
        Err(ParseError::BadLength)
    } else if ip_proto(b) != PROTO_TCP && ip_proto(b) != PROTO_UDP {
        Err(ParseError::UnsupportedProtocol)
    } else if !is_v6(b) && !sum_matches(
        be16(b, 10),
        ipv4_header_checksum(zero16(b.subrange(0, ip_header_len(b)), 10)),
    ) {
        Err(ParseError::BadChecksum)
    } else if ip_proto(b) == PROTO_TCP {
        check_tcp(src_ip(b), dst_ip(b), segment(b))
    } else {
        check_udp(src_ip(b), dst_ip(b), segment(b))
    }
}

/// The packet that well-formed bytes hold.
pub open spec fn decode(b: Seq<u8>) -> PacketView {
    let seg = segment(b);
    PacketView {
        src: Endpoint { addr: src_ip(b), port: be16(seg, 0) as u16 },
        dst: Endpoint { addr: dst_ip(b), port: be16(seg, 2) as u16 },
        transport: if ip_proto(b) == PROTO_TCP {
            Transport::Tcp(
                TcpHeader {
                    seq: be32(seg, 4) as u32,
                    ack: be32(seg, 8) as u32,
                    flags: seg[13],
                    window: be16(seg, 14) as u16,
                },
            )
        } else {
            Transport::Udp
        },
        payload: if ip_proto(b) == PROTO_TCP {
            seg.subrange(tcp_data_offset(seg), seg.len() as int)
        } else {
            seg.subrange(8, seg.len() as int)
        },
    }
}

fn read_be16(b: &[u8], i: usize) -> (r: u16)
    requires
        i + 1 < b@.len(),
    ensures
        r as int == be16(b@, i as int),
{
    (b[i] as u16) * 256 + (b[i + 1] as u16)
}

fn read_be32(b: &[u8], i: usize) -> (r: u32)
    requires
        i + 3 < b@.len(),
        b@.len() <= usize::MAX,
    ensures
        r as int == be32(b@, i as int),
{
    let hi = read_be16(b, i);
    let lo = read_be16(b, i + 2);
    (hi as u32) * 65536 + (lo as u32)
}

/// Copy of `b[lo..hi]`.
fn copy_range(b: &[u8], lo: usize, hi: usize) -> (r: Vec<u8>)
    requires
        lo <= hi <= b@.len(),
    ensures
        r@ == b@.subrange(lo as int, hi as int),
{
    let mut r: Vec<u8> = Vec::new();
    let mut i: usize = lo;
    while i < hi
        invariant
            lo <= i <= hi <= b@.len(),
            r@ == b@.subrange(lo as int, i as int),
        decreases hi - i,
    {
        r.push(b[i]);
        i = i + 1;
        assert(r@ =~= b@.subrange(lo as int, i as int));
    }
    r
}

fn read_be64(b: &[u8], i: usize) -> (r: u64)
    requires
        i + 7 < b@.len(),
        b@.len() <= usize::MAX,
    ensures
        r as int == be64(b@, i as int),
{
    let hi = read_be32(b, i);
    let lo = read_be32(b, i + 4);
    (hi as u64) * 0x1_0000_0000 + (lo as u64)
}

fn read_be128(b: &[u8], i: usize) -> (r: u128)
    requires
        i + 15 < b@.len(),
        b@.len() <= usize::MAX,
    ensures
        r as int == be128(b@, i as int),
{
    let hi = read_be64(b, i);
    let lo = read_be64(b, i + 8);
    (hi as u128) * 0x1_0000_0000_0000_0000 + (lo as u128)
}

fn tcp_sum_of(src: IpAddr, dst: IpAddr, seg: &[u8]) -> (r: u16)
    requires
        20 <= seg@.len() <= 0xffff,
    ensures
        r == tcp_sum(src, dst, zero16(seg@, 16)),
{
    match (src, dst) {
        (IpAddr::V4(a), IpAddr::V4(c)) => compute_tcp_checksum(a, c, seg),
        (IpAddr::V6(a), IpAddr::V6(c)) => compute_tcp6_checksum(a, c, seg),
        _ => 0,
    }
}

fn udp_sum_of(src: IpAddr, dst: IpAddr, seg: &[u8]) -> (r: u16)
    requires
        8 <= seg@.len() <= 0xffff,
        be16(seg@, 4) == seg@.len(),
    ensures
        r == udp_sum(src, dst, zero16(seg@, 6)),
{
    match (src, dst) {
        (IpAddr::V4(a), IpAddr::V4(c)) => compute_udp_checksum(a, c, seg),
        (IpAddr::V6(a), IpAddr::V6(c)) => compute_udp6_checksum(a, c, seg),
        _ => 0,
    }
}

/// Parses one IPv4 or IPv6 packet carrying TCP or UDP. IPv4 and TCP options
/// are skipped; IPv6 extension headers are not read, so a packet that has one
/// is refused by its next-header field; bytes past the end of the packet are
/// ignored.
pub fn parse(b: &[u8]) -> (r: Result<Packet, ParseError>)
    ensures
        match r {
            Ok(p) => check_packet(b@) == Ok::<(), ParseError>(()) && p@ == decode(b@) && p@.wf(),
            Err(e) => check_packet(b@) == Err::<(), ParseError>(e),
        },
{
    if b.len() < 20 {
        return Err(ParseError::Truncated);
    }
    let version = b[0] / 16;
    if version != 4 && version != 6 {
        return Err(ParseError::UnsupportedVersion);
    }
    let v6 = version == 6;
    if v6 && b.len() < 40 {
        return Err(ParseError::Truncated);
    }
    let hlen: usize = if v6 { 40 } else { ((b[0] % 16) as usize) * 4 };
    let total: usize = if v6 { 40 + read_be16(b, 4) as usize } else { read_be16(b, 2) as usize };
    if hlen < 20 || hlen > total || total > b.len() {
        return Err(ParseError::BadLength);
    }
    let proto = if v6 { b[6] } else { b[9] };
    if proto != PROTO_TCP && proto != PROTO_UDP {
        return Err(ParseError::UnsupportedProtocol);
    }
    if !v6 {
        let header = copy_range(b, 0, hlen);
        let expected = compute_ipv4_header_checksum(header.as_slice());
        if !same_sum(read_be16(b, 10), expected) {
            return Err(ParseError::BadChecksum);
        }
    }
    let src = if v6 { IpAddr::V6(read_be128(b, 8)) } else { IpAddr::V4(read_be32(b, 12)) };
    let dst = if v6 { IpAddr::V6(read_be128(b, 24)) } else { IpAddr::V4(read_be32(b, 16)) };
    let seg = copy_range(b, hlen, total);
    let s = seg.as_slice();
    let slen = s.len();
    if proto == PROTO_TCP {
        if slen < 20 {
            return Err(ParseError::Truncated);
        }
        let off: usize = ((s[12] / 16) as usize) * 4;
        if off < 20 || off > slen {
            return Err(ParseError::BadLength);
        }
        let sum = tcp_sum_of(src, dst, s);
        if !same_sum(read_be16(s, 16), sum) {
            return Err(ParseError::BadChecksum);
        }
        let header = TcpHeader {
            seq: read_be32(s, 4),
            ack: read_be32(s, 8),
            flags: s[13],
            window: read_be16(s, 14),
        };
        Ok(Packet {
            src: Endpoint { addr: src, port: read_be16(s, 0) },
            dst: Endpoint { addr: dst, port: read_be16(s, 2) },
            transport: Transport::Tcp(header),
            payload: copy_range(s, off, slen),
        })
    } else {
        if slen < 8 {
            return Err(ParseError::Truncated);
        }
        if read_be16(s, 4) as usize != slen {
            return Err(ParseError::BadLength);
        }
        let field = read_be16(s, 6);
        if field != 0 {
            let sum = udp_sum_of(src, dst, s);
            if !same_sum(field, sum) {
                return Err(ParseError::BadChecksum);
            }
        }
        Ok(Packet {
            src: Endpoint { addr: src, port: read_be16(s, 0) },
            dst: Endpoint { addr: dst, port: read_be16(s, 2) },
            transport: Transport::Udp,
            payload: copy_range(s, 8, slen),
        })
    }
}

} // verus!

verus! {

pub open spec fn u16_bytes(v: int) -> Seq<u8> {
    seq![(v / 256) as u8, (v % 256) as u8]
}

pub open spec fn u32_bytes(v: int) -> Seq<u8> {
    u16_bytes(v / 65536) + u16_bytes(v % 65536)
}

/// The bytes with the 16-bit field at `off` set to `v`.
pub open spec fn put16(b: Seq<u8>, off: int, v: int) -> Seq<u8> {
    b.update(off, (v / 256) as u8).update(off + 1, (v % 256) as u8)
}

pub open spec fn proto_of(t: Transport) -> u8 {
    match t {
        Transport::Tcp(_) => PROTO_TCP,
        Transport::Udp => PROTO_UDP,
    }
}

/// The transport header and payload, with the checksum field still zero.
/// TCP segments are written without options.
pub open spec fn raw_segment(p: PacketView) -> Seq<u8> {
    match p.transport {
        Transport::Tcp(h) => u16_bytes(p.src.port as int) + u16_bytes(p.dst.port as int) + u32_bytes(
            h.seq as int,
        ) + u32_bytes(h.ack as int) + seq![0x50u8, h.flags] + u16_bytes(h.window as int) + seq![
            0u8,
            0u8,
            0u8,
            0u8,
        ] + p.payload,
        Transport::Udp => u16_bytes(p.src.port as int) + u16_bytes(p.dst.port as int) + u16_bytes(
            8 + p.payload.len() as int,
        ) + seq![0u8, 0u8] + p.payload,
    }
}

pub open spec fn segment_bytes(p: PacketView) -> Seq<u8> {
    let raw = raw_segment(p);
    match p.transport {
        Transport::Tcp(_) => put16(raw, 16, tcp_sum(p.src.addr, p.dst.addr, raw) as int),
        Transport::Udp => put16(raw, 6, udp_sum(p.src.addr, p.dst.addr, raw) as int),
    }
}

pub open spec fn u64_bytes(v: int) -> Seq<u8> {
    u32_bytes(v / 0x1_0000_0000) + u32_bytes(v % 0x1_0000_0000)
}

pub open spec fn u128_bytes(v: int) -> Seq<u8> {
    u64_bytes(v / 0x1_0000_0000_0000_0000) + u64_bytes(v % 0x1_0000_0000_0000_0000)
}

pub open spec fn addr_v4(a: IpAddr) -> int {
    match a {
        IpAddr::V4(x) => x as int,
        IpAddr::V6(_) => 0,
    }
}

pub open spec fn addr_v6(a: IpAddr) -> int {
    match a {
        IpAddr::V4(_) => 0,
        IpAddr::V6(x) => x as int,
    }
}

/// A 20-byte IPv4 header, checksum field zero: no options, don't-fragment
/// set, time to live 64.
pub open spec fn raw_ip_header(p: PacketView) -> Seq<u8> {
    seq![0x45u8, 0u8] + u16_bytes(20 + raw_segment(p).len() as int) + seq![
        0u8,
        0u8,
        0x40u8,
        0u8,
        64u8,
        proto_of(p.transport),
        0u8,
        0u8,
    ] + u32_bytes(addr_v4(p.src.addr)) + u32_bytes(addr_v4(p.dst.addr))
}

/// A 40-byte IPv6 header: traffic class and flow label zero, hop limit 64.
pub open spec fn ip6_header(p: PacketView) -> Seq<u8> {
    seq![0x60u8, 0u8, 0u8, 0u8] + u16_bytes(raw_segment(p).len() as int) + seq![
        proto_of(p.transport),
        64u8,
    ] + u128_bytes(addr_v6(p.src.addr)) + u128_bytes(addr_v6(p.dst.addr))
}

/// The wire form of a packet, with its checksums filled in.
pub open spec fn encode(p: PacketView) -> Seq<u8> {
    if p.src.addr is V6 {
        ip6_header(p) + segment_bytes(p)
    } else {
        let h = raw_ip_header(p);
        put16(h, 10, ipv4_header_checksum(h) as int) + segment_bytes(p)
    }
}

fn push_u16(v: &mut Vec<u8>, x: u16)
    ensures
        final(v)@ == old(v)@ + u16_bytes(x as int),
{
    v.push((x / 256) as u8);
    v.push((x % 256) as u8);
    assert(final(v)@ =~= old(v)@ + u16_bytes(x as int));
}

fn push_u32(v: &mut Vec<u8>, x: u32)
    ensures
        final(v)@ == old(v)@ + u32_bytes(x as int),
{
    push_u16(v, (x / 65536) as u16);
    push_u16(v, (x % 65536) as u16);
    assert(final(v)@ =~= old(v)@ + u32_bytes(x as int));
}

fn push_u64(v: &mut Vec<u8>, x: u64)
    ensures
        final(v)@ == old(v)@ + u64_bytes(x as int),
{
    push_u32(v, (x / 0x1_0000_0000) as u32);
    push_u32(v, (x % 0x1_0000_0000) as u32);
    assert(final(v)@ =~= old(v)@ + u64_bytes(x as int));
}

fn push_u128(v: &mut Vec<u8>, x: u128)
    ensures
        final(v)@ == old(v)@ + u128_bytes(x as int),
{
    push_u64(v, (x / 0x1_0000_0000_0000_0000) as u64);
    push_u64(v, (x % 0x1_0000_0000_0000_0000) as u64);
    assert(final(v)@ =~= old(v)@ + u128_bytes(x as int));
}

fn push_all(v: &mut Vec<u8>, b: &[u8])
    ensures
        final(v)@ == old(v)@ + b@,
{
    let mut i: usize = 0;
    while i < b.len()
        invariant
            i <= b@.len(),
            v@ == old(v)@ + b@.subrange(0, i as int),
        decreases b@.len() - i,
    {
        v.push(b[i]);
        i = i + 1;
        assert(v@ =~= old(v)@ + b@.subrange(0, i as int));
    }
    assert(b@.subrange(0, i as int) =~= b@);
}

fn set_u16(v: &mut Vec<u8>, off: usize, x: u16)
    requires
        off + 1 < old(v).len(),
    ensures
        final(v)@ == put16(old(v)@, off as int, x as int),
{
    v.set(off, (x / 256) as u8);
    v.set(off + 1, (x % 256) as u8);
}

fn emit_segment(p: &Packet) -> (r: Vec<u8>)
    requires
        p@.wf(),
    ensures
        r@ == segment_bytes(p@),
{
    let mut s: Vec<u8> = Vec::new();
    push_u16(&mut s, p.src.port);
    push_u16(&mut s, p.dst.port);
    match p.transport {
        Transport::Tcp(h) => {
            push_u32(&mut s, h.seq);
            push_u32(&mut s, h.ack);
            s.push(0x50);
            s.push(h.flags);
            push_u16(&mut s, h.window);
            s.push(0);
            s.push(0);
            s.push(0);
            s.push(0);
            push_all(&mut s, p.payload.as_slice());
            assert(s@ =~= raw_segment(p@));
            let sum = tcp_sum_of(p.src.addr, p.dst.addr, s.as_slice());
            assert(zero16(s@, 16) =~= s@);
            set_u16(&mut s, 16, sum);
        },
        Transport::Udp => {
            push_u16(&mut s, (8 + p.payload.len()) as u16);
            s.push(0);
            s.push(0);
            push_all(&mut s, p.payload.as_slice());
            assert(s@ =~= raw_segment(p@));
            let sum = udp_sum_of(p.src.addr, p.dst.addr, s.as_slice());
            assert(zero16(s@, 6) =~= s@);
            set_u16(&mut s, 6, sum);
        },
    }
    s
}

#[verifier::rlimit(40)]
/// Writes a packet as IPv4 or IPv6 bytes, by the family of its addresses,
/// with correct lengths and checksums.
pub fn emit(p: &Packet) -> (r: Vec<u8>)
    requires
        p@.wf(),
    ensures
        r@ == encode(p@),
{
    let seg = emit_segment(p);
    let proto = match p.transport {
        Transport::Tcp(_) => PROTO_TCP,
        Transport::Udp => PROTO_UDP,
    };
    let mut b: Vec<u8> = Vec::new();
    match (p.src.addr, p.dst.addr) {
        (IpAddr::V6(src), IpAddr::V6(dst)) => {
            b.push(0x60);
            b.push(0);
            b.push(0);
            b.push(0);
            push_u16(&mut b, seg.len() as u16);
            b.push(proto);
            b.push(64);
            push_u128(&mut b, src);
            push_u128(&mut b, dst);
            assert(b@ =~= ip6_header(p@));
        },
        (src, dst) => {
            let src4 = match src {
                IpAddr::V4(a) => a,
                IpAddr::V6(_) => 0,
            };
            let dst4 = match dst {
                IpAddr::V4(a) => a,
                IpAddr::V6(_) => 0,
            };
            b.push(0x45);
            b.push(0);
            push_u16(&mut b, (20 + seg.len()) as u16);
            b.push(0);
            b.push(0);
            b.push(0x40);
            b.push(0);
            b.push(64);
            b.push(proto);
            b.push(0);
            b.push(0);
            push_u32(&mut b, src4);
            push_u32(&mut b, dst4);
            assert(b@ =~= raw_ip_header(p@));
            let sum = compute_ipv4_header_checksum(b.as_slice());
            assert(zero16(b@, 10) =~= b@);
            set_u16(&mut b, 10, sum);
        },
    }
    push_all(&mut b, seg.as_slice());
    b
}

} // verus!

verus! {

proof fn lemma_u16_bytes(b: Seq<u8>, i: int, v: int)
    requires
        0 <= v < 0x10000,
        0 <= i,
        i + 1 < b.len(),
        b[i] == (v / 256) as u8,
        b[i + 1] == (v % 256) as u8,
    ensures
        be16(b, i) == v,
{
}

proof fn lemma_u32_bytes(b: Seq<u8>, i: int, v: int)
    requires
        0 <= v < 0x1_0000_0000,
        0 <= i,
        i + 3 < b.len(),
        b.subrange(i, i + 4) == u32_bytes(v),
    ensures
        be32(b, i) == v,
{
    assert(b[i] == b.subrange(i, i + 4)[0]);
    assert(b[i + 1] == b.subrange(i, i + 4)[1]);
    assert(b[i + 2] == b.subrange(i, i + 4)[2]);
    assert(b[i + 3] == b.subrange(i, i + 4)[3]);
    lemma_u16_bytes(b, i, v / 65536);
    lemma_u16_bytes(b, i + 2, v % 65536);
}

proof fn lemma_put16(b: Seq<u8>, off: int, v: int)
    requires
        0 <= off,
        off + 1 < b.len(),
        0 <= v < 0x10000,
    ensures
        be16(put16(b, off, v), off) == v,
        zero16(put16(b, off, v), off) == zero16(b, off),
        put16(b, off, v).len() == b.len(),
        forall|j: int| 0 <= j < b.len() && j != off && j != off + 1 ==> #[trigger] put16(b, off, v)[j] == b[j],
{
    let r = put16(b, off, v);
    lemma_u16_bytes(r, off, v);
    assert(zero16(r, off) =~= zero16(b, off));
}

/// Emission and parsing agree over IPv4: the bytes `emit` writes for an IPv4
/// packet that fits pass every check of `parse`, which gives the same packet
/// back.
#[verifier::rlimit(80)]
pub proof fn lemma_parse_emit(p: PacketView)
    requires
        p.wf(),
        p.src.addr is V4,
    ensures
        check_packet(encode(p)) == Ok::<(), ParseError>(()),
        decode(encode(p)) == p,
{
    let h = raw_ip_header(p);
    let raw = raw_segment(p);
    let seg = segment_bytes(p);
    let c = ipv4_header_checksum(h) as int;
    let hh = put16(h, 10, c);
    let b = encode(p);
    assert(h.len() == 20);
    assert(raw.len() == header_len(p.transport) + p.payload.len());
    lemma_put16(h, 10, c);
    assert(zero16(h, 10) =~= h);
    assert(b.subrange(0, 20) =~= hh);
    let seglen = raw.len() as int;
    let sum = match p.transport {
        Transport::Tcp(_) => tcp_sum(p.src.addr, p.dst.addr, raw) as int,
        Transport::Udp => udp_sum(p.src.addr, p.dst.addr, raw) as int,
    };
    let off = match p.transport {
        Transport::Tcp(_) => 16int,
        Transport::Udp => 6int,
    };
    assert(seg == put16(raw, off, sum));
    lemma_put16(raw, off, sum);
    assert(b.subrange(20, b.len() as int) =~= seg);
    assert(b.len() == 20 + seglen);
    assert(b[0] == 0x45u8);
    assert(b[9] == proto_of(p.transport));
    lemma_u16_bytes(b, 2, 20 + seglen);
    assert(ip_total_len(b) == b.len());
    assert(be16(b, 10) == be16(hh, 10));
    assert(ip_header_len(b) == 20);
    assert(segment(b) =~= seg);
    assert(b.subrange(12, 16) =~= u32_bytes(addr_v4(p.src.addr)));
    assert(b.subrange(16, 20) =~= u32_bytes(addr_v4(p.dst.addr)));
    lemma_u32_bytes(b, 12, addr_v4(p.src.addr));
    lemma_u32_bytes(b, 16, addr_v4(p.dst.addr));
    lemma_u16_bytes(seg, 0, p.src.port as int);
    lemma_u16_bytes(seg, 2, p.dst.port as int);
    assert(zero16(seg, off) =~= raw);
    match p.transport {
        Transport::Tcp(th) => {
            assert(seg.subrange(4, 8) =~= u32_bytes(th.seq as int));
            assert(seg.subrange(8, 12) =~= u32_bytes(th.ack as int));
            lemma_u32_bytes(seg, 4, th.seq as int);
            lemma_u32_bytes(seg, 8, th.ack as int);
            lemma_u16_bytes(seg, 14, th.window as int);
            assert(seg[12] == 0x50u8);
            assert(seg.subrange(20, seg.len() as int) =~= p.payload);
        },
        Transport::Udp => {
            lemma_u16_bytes(seg, 4, 8 + p.payload.len() as int);
            assert(seg.subrange(8, seg.len() as int) =~= p.payload);
        },
    }
}

} // verus!

verus! {

proof fn lemma_u64_bytes(b: Seq<u8>, i: int, v: int)
    requires
        0 <= v < 0x1_0000_0000_0000_0000,
        0 <= i,
        i + 7 < b.len(),
        b.subrange(i, i + 8) == u64_bytes(v),
    ensures
        be64(b, i) == v,
{
    assert(b.subrange(i, i + 4) =~= b.subrange(i, i + 8).subrange(0, 4));
    assert(b.subrange(i + 4, i + 8) =~= b.subrange(i, i + 8).subrange(4, 8));
    assert(u64_bytes(v).subrange(0, 4) =~= u32_bytes(v / 0x1_0000_0000));
    assert(u64_bytes(v).subrange(4, 8) =~= u32_bytes(v % 0x1_0000_0000));
    lemma_u32_bytes(b, i, v / 0x1_0000_0000);
    lemma_u32_bytes(b, i + 4, v % 0x1_0000_0000);
}

proof fn lemma_u128_bytes(b: Seq<u8>, i: int, v: int)
    requires
        0 <= v < 0x1_0000_0000_0000_0000_0000_0000_0000_0000,
        0 <= i,
        i + 15 < b.len(),
        b.subrange(i, i + 16) == u128_bytes(v),
    ensures
        be128(b, i) == v,
{
    assert(b.subrange(i, i + 8) =~= b.subrange(i, i + 16).subrange(0, 8));
    assert(b.subrange(i + 8, i + 16) =~= b.subrange(i, i + 16).subrange(8, 16));
    assert(u128_bytes(v).subrange(0, 8) =~= u64_bytes(v / 0x1_0000_0000_0000_0000));
    assert(u128_bytes(v).subrange(8, 16) =~= u64_bytes(v % 0x1_0000_0000_0000_0000));
    lemma_u64_bytes(b, i, v / 0x1_0000_0000_0000_0000);
    lemma_u64_bytes(b, i + 8, v % 0x1_0000_0000_0000_0000);
}

/// Emission and parsing agree over IPv6: the bytes `emit` writes for an IPv6
/// packet that fits pass every check of `parse`, which gives the same packet
/// back.
#[verifier::rlimit(80)]
pub proof fn lemma_parse_emit6(p: PacketView)
    requires
        p.wf(),
        p.src.addr is V6,
    ensures
        check_packet(encode(p)) == Ok::<(), ParseError>(()),
        decode(encode(p)) == p,
{
    let h = ip6_header(p);
    let raw = raw_segment(p);
    let seg = segment_bytes(p);
    let b = encode(p);
    assert(h.len() == 40);
    assert(raw.len() == header_len(p.transport) + p.payload.len());
    let seglen = raw.len() as int;
    let sum = match p.transport {
        Transport::Tcp(_) => tcp_sum(p.src.addr, p.dst.addr, raw) as int,
        Transport::Udp => udp_sum(p.src.addr, p.dst.addr, raw) as int,
    };
    let off = match p.transport {
        Transport::Tcp(_) => 16int,
        Transport::Udp => 6int,
    };
    assert(seg == put16(raw, off, sum));
    lemma_put16(raw, off, sum);
    assert(b.subrange(40, b.len() as int) =~= seg);
    assert(b.len() == 40 + seglen);
    assert(b[0] == 0x60u8);
    assert(is_v6(b));
    assert(b[6] == proto_of(p.transport));
    lemma_u16_bytes(b, 4, seglen);
    assert(ip_total_len(b) == b.len());
    assert(ip_header_len(b) == 40);
    assert(segment(b) =~= seg);
    assert(b.subrange(8, 24) =~= u128_bytes(addr_v6(p.src.addr)));
    assert(b.subrange(24, 40) =~= u128_bytes(addr_v6(p.dst.addr)));
    lemma_u128_bytes(b, 8, addr_v6(p.src.addr));
    lemma_u128_bytes(b, 24, addr_v6(p.dst.addr));
    lemma_u16_bytes(seg, 0, p.src.port as int);
    lemma_u16_bytes(seg, 2, p.dst.port as int);
    assert(zero16(seg, off) =~= raw);
    match p.transport {
        Transport::Tcp(th) => {
            assert(seg.subrange(4, 8) =~= u32_bytes(th.seq as int));
            assert(seg.subrange(8, 12) =~= u32_bytes(th.ack as int));
            lemma_u32_bytes(seg, 4, th.seq as int);
            lemma_u32_bytes(seg, 8, th.ack as int);
            lemma_u16_bytes(seg, 14, th.window as int);
            assert(seg[12] == 0x50u8);
            assert(seg.subrange(20, seg.len() as int) =~= p.payload);
        },
        Transport::Udp => {
            lemma_u16_bytes(seg, 4, 8 + p.payload.len() as int);
            assert(seg.subrange(8, seg.len() as int) =~= p.payload);
        },
    }
}

} // verus!
