//! Packets as the engine sees them: endpoints, TCP header fields, payload.
use vstd::prelude::*;

verus! {

/// TCP control bits, as they stand in the flags byte of the header.
pub const FIN: u8 = 0x01;
pub const SYN: u8 = 0x02;
pub const RST: u8 = 0x04;
pub const ACK: u8 = 0x10;
pub const SYN_ACK: u8 = 0x12;
pub const FIN_ACK: u8 = 0x11;
pub const RST_ACK: u8 = 0x14;
pub const PSH_ACK: u8 = 0x18;

pub const PROTO_TCP: u8 = 6;
pub const PROTO_UDP: u8 = 17;

/// An IP address, as a big-endian integer.
#[derive(Clone, Copy, Debug, PartialEq, Eq, Structural)]
pub enum IpAddr {
    V4(u32),
    V6(u128),
}

/// An address and a port.
#[derive(Clone, Copy, Debug, PartialEq, Eq, Structural)]
pub struct Endpoint {
    pub addr: IpAddr,
    pub port: u16,
}

pub open spec fn same_family(a: IpAddr, b: IpAddr) -> bool {
    (a is V4 && b is V4) || (a is V6 && b is V6)
}

/// The TCP header fields that the engine reads and writes.
#[derive(Clone, Copy, Debug, PartialEq, Eq, Structural)]
pub struct TcpHeader {
    pub seq: u32,
    pub ack: u32,
    pub flags: u8,
    pub window: u16,
}

#[derive(Clone, Copy, Debug, PartialEq, Eq, Structural)]
pub enum Transport {
    Tcp(TcpHeader),
    Udp,
}

/// A parsed IPv4 packet carrying a TCP segment or a UDP datagram.
#[derive(Debug)]
pub struct Packet {
    pub src: Endpoint,
    pub dst: Endpoint,
    pub transport: Transport,
    pub payload: Vec<u8>,
}

pub struct PacketView {
    pub src: Endpoint,
    pub dst: Endpoint,
    pub transport: Transport,
    pub payload: Seq<u8>,
}

impl View for Packet {
    type V = PacketView;

    open spec fn view(&self) -> PacketView {
        PacketView {
            src: self.src,
            dst: self.dst,
            transport: self.transport,
            payload: self.payload@,
        }
    }
}

pub open spec fn has_flag(flags: u8, bit: u8) -> bool {
    flags & bit != 0
}

/// Length in bytes of the transport header that `emit` writes.
pub open spec fn header_len(t: Transport) -> int {
    match t {
        Transport::Tcp(_) => 20,
        Transport::Udp => 8,
    }
}

impl PacketView {
    /// Both ends are of one family, and the packet fits in one datagram of
    /// it: an IPv4 total length, or an IPv6 payload length, of at most 65535.
    pub open spec fn wf(&self) -> bool {
        &&& same_family(self.src.addr, self.dst.addr)
        &&& header_len(self.transport) + self.payload.len() + (if self.src.addr is V4 { 20int } else { 0int })
            <= 0xffff
    }
}

} // verus!
