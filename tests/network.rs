use netbridge::bridge::{next_action, Action, LoopState, Wake};
use netbridge::codec::emit;
use netbridge::engine::{Engine, Event};
use netbridge::packet::IpAddr;
use smoltcp::phy::ChecksumCapabilities;
use smoltcp::wire::{
    IpAddress, IpProtocol, IpRepr, Ipv4Address, Ipv4Packet, Ipv4Repr, Ipv6Address, Ipv6Packet, Ipv6Repr,
    TcpControl, TcpPacket,
    TcpRepr, TcpSeqNumber, UdpPacket, UdpRepr,
};

fn build_ipv4_tcp_packet(
    src_addr: Ipv4Address,
    dst_addr: Ipv4Address,
    src_port: u16,
    dst_port: u16,
    control: TcpControl,
    seq_number: TcpSeqNumber,
    ack_number: Option<TcpSeqNumber>,
    payload: &[u8],
) -> Vec<u8> {
    let tcp_repr = TcpRepr {
        src_port,
        dst_port,
        control,
        seq_number,
        ack_number,
        window_len: 64240,
        window_scale: Some(8),
        max_seg_size: Some(1380),
        sack_permitted: true,
        sack_ranges: [None, None, None],
        payload,
    };
    let ip_repr = Ipv4Repr {
        src_addr,
        dst_addr,
        protocol: IpProtocol::Tcp,
        payload_len: tcp_repr.header_len() + payload.len(),
        hop_limit: 255,
    };
    let buf = vec![0u8; IpRepr::Ipv4(ip_repr).total_len()];
    let mut ip_packet = Ipv4Packet::new_unchecked(buf);
    ip_repr.emit(&mut ip_packet, &ChecksumCapabilities::default());
    tcp_repr.emit(
        &mut TcpPacket::new_unchecked(ip_packet.payload_mut()),
        &ip_repr.src_addr.into(),
        &ip_repr.dst_addr.into(),
        &ChecksumCapabilities::default(),
    );
    ip_packet.into_inner()
}

fn build_ipv4_udp_packet(
    src_addr: Ipv4Address,
    dst_addr: Ipv4Address,
    src_port: u16,
    dst_port: u16,
    payload: &[u8],
) -> Vec<u8> {
    let udp_repr = UdpRepr { src_port, dst_port };
    let ip_repr = Ipv4Repr {
        src_addr,
        dst_addr,
        protocol: IpProtocol::Udp,
        payload_len: udp_repr.header_len() + payload.len(),
        hop_limit: 255,
    };
    let buf = vec![0u8; IpRepr::Ipv4(ip_repr).total_len()];
    let mut ip_packet = Ipv4Packet::new_unchecked(buf);
    ip_repr.emit(&mut ip_packet, &ChecksumCapabilities::default());
    udp_repr.emit(
        &mut UdpPacket::new_unchecked(ip_packet.payload_mut()),
        &ip_repr.src_addr.into(),
        &ip_repr.dst_addr.into(),
        payload.len(),
        |buf| buf.copy_from_slice(payload),
        &ChecksumCapabilities::default(),
    );
    ip_packet.into_inner()
}

fn addr_of(a: IpAddr) -> IpAddress {
    match a {
        IpAddr::V4(v) => IpAddress::Ipv4(Ipv4Address(v.to_be_bytes())),
        IpAddr::V6(v) => IpAddress::Ipv6(Ipv6Address(v.to_be_bytes())),
    }
}

/// Parses engine output with smoltcp, checking both checksums.
fn smoltcp_tcp(bytes: &[u8]) -> (Ipv4Address, Ipv4Address, TcpControl, TcpSeqNumber, Option<TcpSeqNumber>, Vec<u8>) {
    let ip = Ipv4Packet::new_checked(bytes).unwrap();
    assert!(ip.verify_checksum());
    let (src, dst) = (ip.src_addr(), ip.dst_addr());
    let tcp = TcpPacket::new_checked(ip.payload()).unwrap();
    let repr = TcpRepr::parse(&tcp, &src.into(), &dst.into(), &ChecksumCapabilities::default()).unwrap();
    (src, dst, repr.control, repr.seq_number, repr.ack_number, repr.payload.to_vec())
}

const CLIENT: [u8; 4] = [10, 0, 0, 1];
const SERVER: [u8; 4] = [10, 0, 0, 42];

fn handshake(engine: &mut Engine, seq: TcpSeqNumber, isn: u32, data: &[u8]) -> (Vec<Event>, TcpSeqNumber) {
    let syn = build_ipv4_tcp_packet(Ipv4Address(CLIENT), Ipv4Address(SERVER), 1234, 31337, TcpControl::Syn, seq, None, &[]);
    let (out, evs) = engine.receive(&syn, isn).unwrap();
    assert!(evs.is_empty());
    assert_eq!(out.len(), 1);
    let (_, _, control, synack_seq, ack, _) = smoltcp_tcp(&emit(&out[0]));
    assert_eq!(control, TcpControl::Syn);
    assert_eq!(ack.unwrap(), seq + 1);
    let ack_pkt = build_ipv4_tcp_packet(
        Ipv4Address(CLIENT), Ipv4Address(SERVER), 1234, 31337, TcpControl::None, seq + 1, Some(synack_seq + 1), data,
    );
    let (_, evs) = engine.receive(&ack_pkt, isn).unwrap();
    (evs, seq + 1 + data.len())
}

#[test]
fn do_nothing() {
    let state = LoopState { stopping: false, pending: 0 };
    assert_eq!(next_action(state, Wake::TimerElapsed), Action::Flush);
    assert_eq!(next_action(state, Wake::Shutdown), Action::Stop);
}

#[test]
fn receive_datagram() {
    let mut engine = Engine::new(16);
    let src_addr = Ipv4Address([10, 0, 0, 1]);
    let dst_addr = Ipv4Address([10, 0, 0, 42]);
    let data = "hello world!".as_bytes();
    let udp_ip_packet = build_ipv4_udp_packet(src_addr, dst_addr, 1234, 31337, data);
    let (out, events) = engine.receive(&udp_ip_packet, 0).unwrap();
    assert!(out.is_empty());
    assert_eq!(events.len(), 1);
    match &events[0] {
        Event::DatagramReceived { src, dst, data: recv_data } => {
            assert_eq!(data, &recv_data[..]);
            assert_eq!(IpAddress::Ipv4(src_addr), addr_of(src.addr));
            assert_eq!(IpAddress::Ipv4(dst_addr), addr_of(dst.addr));
            assert_eq!((src.port, dst.port), (1234, 31337));
        }
        _ => panic!("Wrong Transport event emitted!"),
    }
}

#[test]
fn connection_established() {
    let mut engine = Engine::new(16);
    let seq = TcpSeqNumber(rand::random::<i32>());
    let data = "hello world!".as_bytes();
    let (events, _) = handshake(&mut engine, seq, rand::random::<u32>(), data);
    assert_eq!(events.len(), 2);
    match &events[0] {
        Event::ConnectionEstablished { id: _, src, dst } => {
            assert_eq!(IpAddress::Ipv4(Ipv4Address(CLIENT)), addr_of(src.addr));
            assert_eq!(IpAddress::Ipv4(Ipv4Address(SERVER)), addr_of(dst.addr));
        }
        _ => panic!("Wrong Transport event emitted!"),
    }
    match &events[1] {
        Event::DataReceived { data: d, .. } => assert_eq!(&d[..], data),
        _ => panic!("expected the handshake's payload"),
    }
}

#[test]
fn ipv6_syn_ack_checks_out_with_smoltcp() {
    let src = Ipv6Address([0x20, 0x01, 0x0d, 0xb8, 0, 0, 0, 0, 0, 0, 0, 0, 0, 0, 0, 1]);
    let dst = Ipv6Address([0x20, 0x01, 0x0d, 0xb8, 0, 0, 0, 0, 0, 0, 0, 0, 0, 0, 0, 0x42]);
    let tcp_repr = TcpRepr {
        src_port: 1234,
        dst_port: 31337,
        control: TcpControl::Syn,
        seq_number: TcpSeqNumber(100),
        ack_number: None,
        window_len: 64240,
        window_scale: None,
        max_seg_size: None,
        sack_permitted: false,
        sack_ranges: [None, None, None],
        payload: &[],
    };
    let ip_repr = Ipv6Repr { src_addr: src, dst_addr: dst, next_header: IpProtocol::Tcp, payload_len: tcp_repr.header_len(), hop_limit: 64 };
    let mut buf = vec![0u8; 40 + tcp_repr.header_len()];
    let mut ip = Ipv6Packet::new_unchecked(&mut buf[..]);
    ip_repr.emit(&mut ip);
    tcp_repr.emit(&mut TcpPacket::new_unchecked(ip.payload_mut()), &src.into(), &dst.into(), &ChecksumCapabilities::default());
    let mut engine = Engine::new(4);
    let (out, _) = engine.receive(&buf, 9).unwrap();
    let reply = emit(&out[0]);
    let ip = Ipv6Packet::new_checked(&reply[..]).unwrap();
    assert_eq!((ip.src_addr(), ip.dst_addr()), (dst, src));
    let tcp = TcpPacket::new_checked(ip.payload()).unwrap();
    let repr = TcpRepr::parse(&tcp, &dst.into(), &src.into(), &ChecksumCapabilities::default()).unwrap();
    assert_eq!((repr.control, repr.ack_number), (TcpControl::Syn, Some(TcpSeqNumber(101))));
}
