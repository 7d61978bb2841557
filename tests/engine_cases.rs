use netbridge::bridge::{after_wake, next_action, Action, Boundary, LoopState, Wake};
use netbridge::codec::{emit, parse, ParseError};
use netbridge::engine::{send_datagram, CloseReason, CommandError, Engine, Event, TcpState, MAX_DATAGRAM, MAX_DATAGRAM6, MSS};
use netbridge::packet::{Endpoint, IpAddr, Packet, TcpHeader, Transport, ACK, FIN, FIN_ACK, PSH_ACK, RST, RST_ACK, SYN, SYN_ACK};

const CLIENT: Endpoint = Endpoint { addr: IpAddr::V4(0x0a00_0001), port: 1234 };
const SERVER: Endpoint = Endpoint { addr: IpAddr::V4(0x0a00_002a), port: 31337 };

fn tcp(src: Endpoint, dst: Endpoint, seq: u32, ack: u32, flags: u8, payload: &[u8]) -> Vec<u8> {
    emit(&Packet {
        src,
        dst,
        transport: Transport::Tcp(TcpHeader { seq, ack, flags, window: 1000 }),
        payload: payload.to_vec(),
    })
}

fn header(p: &Packet) -> TcpHeader {
    match p.transport {
        Transport::Tcp(h) => h,
        Transport::Udp => panic!("expected TCP"),
    }
}

/// Opens a flow with peer sequence 100 and engine sequence 5000; returns its id.
fn open(engine: &mut Engine) -> u64 {
    let (out, _) = engine.receive(&tcp(CLIENT, SERVER, 100, 0, SYN, &[]), 5000).unwrap();
    assert_eq!(header(&out[0]).ack, 101);
    let (_, evs) = engine.receive(&tcp(CLIENT, SERVER, 101, 5001, ACK, &[]), 0).unwrap();
    match evs[..] {
        [Event::ConnectionEstablished { id, .. }] => id,
        _ => panic!("expected one established event"),
    }
}

#[test]
fn emit_then_parse_gives_the_packet() {
    let p = Packet {
        src: CLIENT,
        dst: SERVER,
        transport: Transport::Tcp(TcpHeader { seq: 7, ack: 9, flags: ACK, window: 512 }),
        payload: b"abc".to_vec(),
    };
    let bytes = emit(&p);
    assert_eq!(bytes.len(), 43);
    assert_eq!(&bytes[..4], &[0x45, 0, 0, 43]);
    assert_ne!(&bytes[10..12], &[0, 0]);
    let q = parse(&bytes).unwrap();
    assert_eq!((q.src, q.dst, q.transport), (p.src, p.dst, p.transport));
    assert_eq!(q.payload, p.payload);
    let u = Packet { src: SERVER, dst: CLIENT, transport: Transport::Udp, payload: vec![1, 2, 3, 4] };
    let ub = emit(&u);
    assert_eq!(ub.len(), 32);
    assert_ne!(&ub[26..28], &[0, 0]);
    let v = parse(&ub).unwrap();
    assert_eq!((v.src, v.dst, v.transport, v.payload), (u.src, u.dst, u.transport, u.payload));
}

#[test]
fn parse_rejects_malformed_input() {
    let good = tcp(CLIENT, SERVER, 1, 2, ACK, b"xy");
    assert_eq!(parse(&good[..10]).unwrap_err(), ParseError::Truncated);
    let mut v5 = good.clone();
    v5[0] = 0x55;
    assert_eq!(parse(&v5).unwrap_err(), ParseError::UnsupportedVersion);
    let mut long = good.clone();
    long[3] = 200;
    assert_eq!(parse(&long).unwrap_err(), ParseError::BadLength);
    let mut icmp = good.clone();
    icmp[9] = 1;
    assert_eq!(parse(&icmp).unwrap_err(), ParseError::UnsupportedProtocol);
    let mut bad_ip = good.clone();
    bad_ip[8] = 1;
    assert_eq!(parse(&bad_ip).unwrap_err(), ParseError::BadChecksum);
    let mut bad_tcp = good.clone();
    let last = bad_tcp.len() - 1;
    bad_tcp[last] ^= 0xff;
    assert_eq!(parse(&bad_tcp).unwrap_err(), ParseError::BadChecksum);
    let mut unchecked_udp = emit(&Packet { src: CLIENT, dst: SERVER, transport: Transport::Udp, payload: vec![9] });
    unchecked_udp[26] = 0;
    unchecked_udp[27] = 0;
    assert_eq!(parse(&unchecked_udp).unwrap().payload, vec![9]);
}

#[test]
fn malformed_packet_changes_nothing() {
    let mut engine = Engine::new(4);
    let mut syn = tcp(CLIENT, SERVER, 100, 0, SYN, &[]);
    syn[30] ^= 1;
    assert_eq!(engine.receive(&syn, 1).unwrap_err(), ParseError::BadChecksum);
    assert_eq!(engine.flow_count(), 0);
}

#[test]
fn syn_ack_acknowledges_peer_sequence() {
    let mut engine = Engine::new(4);
    let (out, evs) = engine.receive(&tcp(CLIENT, SERVER, 0xffff_ffff, 0, SYN, &[]), 77).unwrap();
    assert!(evs.is_empty());
    assert_eq!((out[0].src, out[0].dst), (SERVER, CLIENT));
    let h = header(&out[0]);
    assert_eq!((h.seq, h.ack, h.flags), (77, 0, SYN_ACK));
    assert_eq!(engine.state_of(SERVER, CLIENT), Some(TcpState::SynReceived));
    let (again, _) = engine.receive(&tcp(CLIENT, SERVER, 0xffff_ffff, 0, SYN, &[]), 99).unwrap();
    assert_eq!(header(&again[0]).seq, 77);
}

#[test]
fn wrong_ack_does_not_establish() {
    let mut engine = Engine::new(4);
    engine.receive(&tcp(CLIENT, SERVER, 100, 0, SYN, &[]), 5000).unwrap();
    let (out, evs) = engine.receive(&tcp(CLIENT, SERVER, 101, 4000, ACK, &[]), 0).unwrap();
    assert!(out.is_empty() && evs.is_empty());
    assert_eq!(engine.state_of(SERVER, CLIENT), Some(TcpState::SynReceived));
}

#[test]
fn unknown_flow_gets_reset() {
    let mut engine = Engine::new(4);
    let (out, evs) = engine.receive(&tcp(CLIENT, SERVER, 10, 20, ACK, b"abc"), 0).unwrap();
    assert!(evs.is_empty());
    let h = header(&out[0]);
    assert_eq!((h.seq, h.ack, h.flags), (20, 13, RST_ACK));
    let (out, _) = engine.receive(&tcp(CLIENT, SERVER, 10, 20, RST, &[]), 0).unwrap();
    assert!(out.is_empty());
}

#[test]
fn full_registry_drops_syn() {
    let mut engine = Engine::new(1);
    open(&mut engine);
    let other = Endpoint { addr: CLIENT.addr, port: 999 };
    let (out, evs) = engine.receive(&tcp(other, SERVER, 1, 0, SYN, &[]), 3).unwrap();
    assert!(out.is_empty() && evs.is_empty());
    assert_eq!(engine.flow_count(), 1);
}

#[test]
fn data_is_delivered_and_acknowledged() {
    let mut engine = Engine::new(4);
    let id = open(&mut engine);
    let (out, evs) = engine.receive(&tcp(CLIENT, SERVER, 101, 5001, ACK, b"ping"), 0).unwrap();
    match &evs[..] {
        [Event::DataReceived { id: i, data }] => assert_eq!((*i, &data[..]), (id, &b"ping"[..])),
        _ => panic!("expected data"),
    }
    assert_eq!(header(&out[0]).ack, 105);
    let (dup, evs) = engine.receive(&tcp(CLIENT, SERVER, 101, 5001, ACK, b"ping"), 0).unwrap();
    assert!(evs.is_empty());
    assert_eq!((header(&dup[0]).ack, header(&dup[0]).flags), (105, ACK));
}

#[test]
fn remote_close_is_reported_once() {
    let mut engine = Engine::new(4);
    let id = open(&mut engine);
    let (out, evs) = engine.receive(&tcp(CLIENT, SERVER, 101, 5001, FIN | ACK, b"bye"), 0).unwrap();
    match &evs[..] {
        [Event::DataReceived { .. }, Event::ConnectionClosed { id: c, reason }] => {
            assert_eq!((*c, *reason), (id, CloseReason::Remote))
        }
        _ => panic!("expected data then close"),
    }
    let h = header(&out[0]);
    assert_eq!((h.ack, h.flags), (105, FIN_ACK));
    assert_eq!(engine.flow_count(), 0);
    let (out, evs) = engine.receive(&tcp(CLIENT, SERVER, 105, 5002, FIN | ACK, &[]), 0).unwrap();
    assert!(evs.is_empty());
    assert_eq!(header(&out[0]).flags, RST_ACK);
    assert_eq!(engine.send_data(id, vec![1]).unwrap_err(), CommandError::UnknownConnection);
}

#[test]
fn reset_closes_connection() {
    let mut engine = Engine::new(4);
    let id = open(&mut engine);
    let (_, evs) = engine.receive(&tcp(CLIENT, SERVER, 101, 0, RST, &[]), 0).unwrap();
    match evs[..] {
        [Event::ConnectionClosed { id: c, reason: CloseReason::Reset }] => assert_eq!(c, id),
        _ => panic!("expected close"),
    }
    assert_eq!(engine.close_connection(id).unwrap_err(), CommandError::UnknownConnection);
}

#[test]
fn commands_send_segments() {
    let mut engine = Engine::new(4);
    let id = open(&mut engine);
    let segs = engine.send_data(id, b"hello".to_vec()).unwrap();
    assert_eq!(segs.len(), 1);
    let seg = &segs[0];
    assert_eq!((seg.src, seg.dst), (SERVER, CLIENT));
    let h = header(seg);
    assert_eq!((h.seq, h.ack, h.flags), (5001, 101, PSH_ACK));
    assert_eq!(seg.payload, b"hello".to_vec());
    let fin = engine.close_connection(id).unwrap();
    assert_eq!((header(&fin).seq, header(&fin).flags), (5006, FIN_ACK));
    assert_eq!(engine.state_of(SERVER, CLIENT), Some(TcpState::FinWait));
    assert_eq!(engine.send_data(id, vec![1]).unwrap_err(), CommandError::NotEstablished);
    let (out, evs) = engine.receive(&tcp(CLIENT, SERVER, 101, 5007, FIN | ACK, &[]), 0).unwrap();
    assert_eq!(header(&out[0]).flags, ACK);
    assert!(matches!(evs[..], [Event::ConnectionClosed { reason: CloseReason::Remote, .. }]));
}

#[test]
fn send_before_established_is_refused() {
    let mut engine = Engine::new(4);
    engine.receive(&tcp(CLIENT, SERVER, 1, 0, SYN, &[]), 1).unwrap();
    assert_eq!(engine.send_data(0, vec![1]).unwrap_err(), CommandError::NotEstablished);
    assert_eq!(engine.close_connection(0).unwrap_err(), CommandError::NotEstablished);
}

#[test]
fn datagram_addresses_survive_tcp_traffic() {
    let mut engine = Engine::new(4);
    open(&mut engine);
    let other = Endpoint { addr: IpAddr::V4(0xc0a8_0001), port: 53 };
    let bytes = emit(&Packet { src: other, dst: SERVER, transport: Transport::Udp, payload: b"q".to_vec() });
    let (_, evs) = engine.receive(&bytes, 0).unwrap();
    match &evs[..] {
        [Event::DatagramReceived { src, dst, data }] => assert_eq!((*src, *dst, &data[..]), (other, SERVER, &b"q"[..])),
        _ => panic!("expected a datagram"),
    }
    let d = send_datagram(SERVER, other, b"r".to_vec()).unwrap();
    assert_eq!((d.src, d.dst, d.transport), (SERVER, other, Transport::Udp));
    assert_eq!(send_datagram(SERVER, other, vec![0; MAX_DATAGRAM + 1]).unwrap_err(), CommandError::PayloadTooLarge);
    let largest = send_datagram(SERVER, other, vec![7; MAX_DATAGRAM]).unwrap();
    assert_eq!(emit(&largest).len(), 65535);
}

#[test]
fn ids_are_not_reused() {
    let mut engine = Engine::new(4);
    let a = open(&mut engine);
    engine.receive(&tcp(CLIENT, SERVER, 101, 0, RST, &[]), 0).unwrap();
    let b = open(&mut engine);
    assert_ne!(a, b);
}

#[test]
fn loop_decisions() {
    let running = LoopState { stopping: false, pending: 0 };
    assert_eq!(next_action(running, Wake::PacketArrived), Action::FeedPacket);
    assert_eq!(next_action(running, Wake::CommandArrived), Action::FeedCommand);
    assert_eq!(next_action(running, Wake::ChannelClosed(Boundary::EventsOut)), Action::Fail(Boundary::EventsOut));
    let busy = LoopState { stopping: false, pending: 3 };
    assert_eq!(next_action(busy, Wake::Shutdown), Action::FlushAndStop);
    let stopping = after_wake(busy, Wake::Shutdown, 0);
    assert!(stopping.stopping);
    assert_eq!(next_action(stopping, Wake::PacketArrived), Action::Stop);
    assert_eq!(next_action(stopping, Wake::Shutdown), Action::Stop);
}

#[test]
fn unanswered_syn_ack_is_retried_then_times_out() {
    let mut engine = Engine::new(4);
    engine.receive(&tcp(CLIENT, SERVER, 100, 0, SYN, &[]), 5000).unwrap();
    assert_eq!(engine.next_deadline(), Some(1000));
    let (out, evs) = engine.poll(999);
    assert!(out.is_empty() && evs.is_empty());
    let mut expected_deadline = 1000u64;
    for backoff in [2000u64, 4000, 8000, 16000, 32000] {
        let (out, evs) = engine.poll(expected_deadline);
        assert!(evs.is_empty());
        assert_eq!(out.len(), 1);
        let h = header(&out[0]);
        assert_eq!((h.seq, h.ack, h.flags), (5000, 101, SYN_ACK));
        expected_deadline += backoff;
        assert_eq!(engine.next_deadline(), Some(expected_deadline));
    }
    assert_eq!(expected_deadline, 63000);
    let (out, evs) = engine.poll(63000);
    assert!(out.is_empty());
    assert!(evs.is_empty());
    assert_eq!(engine.flow_count(), 0);
    assert_eq!(engine.next_deadline(), None);
    let (out, evs) = engine.poll(100000);
    assert!(out.is_empty() && evs.is_empty());
}

#[test]
fn fin_is_retried_and_established_flows_wait() {
    let mut engine = Engine::new(4);
    let id = open(&mut engine);
    assert_eq!(engine.next_deadline(), None);
    engine.poll(500);
    engine.close_connection(id).unwrap();
    assert_eq!(engine.next_deadline(), Some(1500));
    let (out, _) = engine.poll(2000);
    let h = header(&out[0]);
    assert_eq!((h.seq, h.flags), (5001, FIN_ACK));
    let (out, _) = engine.poll(10);
    assert!(out.is_empty());
    assert_eq!(engine.next_deadline(), Some(4000));
}

#[test]
fn unanswered_fin_times_out_with_one_close() {
    let mut engine = Engine::new(4);
    let id = open(&mut engine);
    engine.close_connection(id).unwrap();
    let mut closes = 0;
    let mut resends = 0;
    for t in (0..200_000u64).step_by(500) {
        let (out, evs) = engine.poll(t);
        resends += out.len();
        for e in evs {
            match e {
                Event::ConnectionClosed { id: c, reason: CloseReason::Timeout } => {
                    assert_eq!(c, id);
                    closes += 1;
                }
                _ => panic!("unexpected event"),
            }
        }
    }
    assert_eq!((resends, closes), (5, 1));
    assert_eq!(engine.flow_count(), 0);
}

#[test]
fn reset_before_established_reports_nothing() {
    let mut engine = Engine::new(4);
    engine.receive(&tcp(CLIENT, SERVER, 100, 0, SYN, &[]), 5000).unwrap();
    let (out, evs) = engine.receive(&tcp(CLIENT, SERVER, 101, 0, RST, &[]), 0).unwrap();
    assert!(out.is_empty() && evs.is_empty());
    assert_eq!(engine.flow_count(), 0);
}

#[test]
fn reset_outside_sequence_is_ignored() {
    let mut engine = Engine::new(4);
    let id = open(&mut engine);
    let (_, evs) = engine.receive(&tcp(CLIENT, SERVER, 5, 0, RST, &[]), 0).unwrap();
    assert!(evs.is_empty());
    assert_eq!(engine.state_of(SERVER, CLIENT), Some(TcpState::Established));
    assert!(engine.send_data(id, vec![1]).is_ok());
}

#[test]
fn large_data_is_cut_into_segments() {
    let mut engine = Engine::new(4);
    let id = open(&mut engine);
    let data: Vec<u8> = (0..(2 * MSS + 100)).map(|i| (i % 251) as u8).collect();
    let segs = engine.send_data(id, data.clone()).unwrap();
    assert_eq!(segs.len(), 3);
    let seqs: Vec<u32> = segs.iter().map(|p| header(p).seq).collect();
    assert_eq!(seqs, vec![5001, 5001 + MSS as u32, 5001 + 2 * MSS as u32]);
    let joined: Vec<u8> = segs.iter().flat_map(|p| p.payload.clone()).collect();
    assert_eq!(joined, data);
    let next = engine.send_data(id, vec![1]).unwrap();
    assert_eq!(header(&next[0]).seq, 5001 + data.len() as u32);
    assert!(engine.send_data(id, Vec::new()).unwrap().is_empty());
}

#[test]
fn all_ones_checksum_equals_zero() {
    let good = tcp(CLIENT, SERVER, 1, 2, ACK, b"xy");
    let field = u16::from_be_bytes([good[36], good[37]]);
    let mut other = good.clone();
    if field == 0 {
        other[36] = 0xff;
        other[37] = 0xff;
    } else if field == 0xffff {
        other[36] = 0;
        other[37] = 0;
    }
    assert!(parse(&other).is_ok());
}

const CLIENT6: Endpoint = Endpoint { addr: IpAddr::V6(0x2001_0db8_0000_0000_0000_0000_0000_0001), port: 40000 };
const SERVER6: Endpoint = Endpoint { addr: IpAddr::V6(0x2001_0db8_0000_0000_0000_0000_0000_0042), port: 443 };

#[test]
fn ipv6_packets_round_trip() {
    let p = Packet {
        src: CLIENT6,
        dst: SERVER6,
        transport: Transport::Tcp(TcpHeader { seq: 1, ack: 2, flags: ACK, window: 9 }),
        payload: b"six".to_vec(),
    };
    let bytes = emit(&p);
    assert_eq!(bytes.len(), 40 + 20 + 3);
    assert_eq!(bytes[0], 0x60);
    assert_eq!(&bytes[4..7], &[0, 23, 6]);
    let q = parse(&bytes).unwrap();
    assert_eq!((q.src, q.dst, q.transport, q.payload), (p.src, p.dst, p.transport, p.payload));
    let mut bad = emit(&Packet { src: SERVER6, dst: CLIENT6, transport: Transport::Udp, payload: vec![5; 10] });
    assert_eq!(parse(&bad).unwrap().payload, vec![5; 10]);
    bad[50] ^= 1;
    assert_eq!(parse(&bad).unwrap_err(), ParseError::BadChecksum);
    assert_eq!(parse(&bytes[..30]).unwrap_err(), ParseError::Truncated);
}

#[test]
fn ipv6_handshake_and_datagram() {
    let mut engine = Engine::new(4);
    let (out, _) = engine.receive(&tcp(CLIENT6, SERVER6, 7, 0, SYN, &[]), 300).unwrap();
    assert_eq!((out[0].src, out[0].dst), (SERVER6, CLIENT6));
    assert_eq!(header(&out[0]).ack, 8);
    let (_, evs) = engine.receive(&tcp(CLIENT6, SERVER6, 8, 301, ACK, b"hi"), 0).unwrap();
    match &evs[..] {
        [Event::ConnectionEstablished { src, dst, .. }, Event::DataReceived { data, .. }] => {
            assert_eq!((*src, *dst, &data[..]), (CLIENT6, SERVER6, &b"hi"[..]))
        }
        _ => panic!("expected establishment and data"),
    }
    let d = emit(&send_datagram(SERVER6, CLIENT6, b"u".to_vec()).unwrap());
    assert_eq!(parse(&d).unwrap().dst, CLIENT6);
    assert_eq!(send_datagram(SERVER6, CLIENT, vec![]).unwrap_err(), CommandError::FamilyMismatch);
    let largest = send_datagram(SERVER6, CLIENT6, vec![1; MAX_DATAGRAM6]).unwrap();
    assert_eq!(emit(&largest).len(), 40 + 65535);
    assert_eq!(send_datagram(SERVER6, CLIENT6, vec![1; MAX_DATAGRAM6 + 1]).unwrap_err(), CommandError::PayloadTooLarge);
}

fn data_of(evs: &[Event]) -> Vec<u8> {
    let mut all = Vec::new();
    for e in evs {
        if let Event::DataReceived { data, .. } = e {
            all.extend_from_slice(data);
        }
    }
    all
}

#[test]
fn out_of_order_data_is_reassembled() {
    let mut engine = Engine::new(4);
    open(&mut engine);
    let (out, evs) = engine.receive(&tcp(CLIENT, SERVER, 104, 5001, ACK, b"def"), 0).unwrap();
    assert!(evs.is_empty());
    assert_eq!(header(&out[0]).ack, 101);
    let (_, evs) = engine.receive(&tcp(CLIENT, SERVER, 107, 5001, ACK, b"gh"), 0).unwrap();
    assert!(evs.is_empty());
    let (out, evs) = engine.receive(&tcp(CLIENT, SERVER, 101, 5001, ACK, b"abc"), 0).unwrap();
    assert_eq!(data_of(&evs), b"abcdefgh".to_vec());
    assert_eq!(evs.len(), 1);
    assert_eq!(header(&out[0]).ack, 109);
    let (_, evs) = engine.receive(&tcp(CLIENT, SERVER, 109, 5001, ACK, b"i"), 0).unwrap();
    assert_eq!(data_of(&evs), b"i".to_vec());
}

#[test]
fn two_byte_stream_in_reverse_order() {
    let mut engine = Engine::new(4);
    open(&mut engine);
    let (_, first) = engine.receive(&tcp(CLIENT, SERVER, 102, 5001, ACK, b"y"), 0).unwrap();
    let (_, second) = engine.receive(&tcp(CLIENT, SERVER, 101, 5001, ACK, b"x"), 0).unwrap();
    assert!(first.is_empty());
    assert_eq!(data_of(&second), b"xy".to_vec());
}

#[test]
fn unacknowledged_data_is_resent_then_times_out() {
    let mut engine = Engine::new(4);
    let id = open(&mut engine);
    engine.poll(0);
    let data: Vec<u8> = (0..(MSS + 10)).map(|i| (i % 200) as u8).collect();
    engine.send_data(id, data.clone()).unwrap();
    assert_eq!(engine.next_deadline(), Some(1000));
    let (out, _) = engine.poll(1000);
    assert_eq!(out.len(), 1);
    let h = header(&out[0]);
    assert_eq!((h.seq, h.flags), (5001, PSH_ACK));
    assert_eq!(out[0].payload, data[..MSS].to_vec());
    // the peer acknowledges the first 100 bytes: the resend starts after them
    engine.receive(&tcp(CLIENT, SERVER, 101, 5101, ACK, &[]), 0).unwrap();
    assert_eq!(engine.next_deadline(), Some(2000));
    let (out, _) = engine.poll(2000);
    assert_eq!(header(&out[0]).seq, 5101);
    assert_eq!(out[0].payload, data[100..].to_vec());
    let mut closes = 0;
    for t in (2000..200_000u64).step_by(500) {
        let (_, evs) = engine.poll(t);
        for e in evs {
            if let Event::ConnectionClosed { id: c, reason: CloseReason::Timeout } = e {
                assert_eq!(c, id);
                closes += 1;
            }
        }
    }
    assert_eq!(closes, 1);
    assert_eq!(engine.flow_count(), 0);
}

#[test]
fn acknowledged_data_is_not_resent() {
    let mut engine = Engine::new(4);
    let id = open(&mut engine);
    engine.send_data(id, b"hello".to_vec()).unwrap();
    engine.receive(&tcp(CLIENT, SERVER, 101, 5006, ACK, &[]), 0).unwrap();
    assert_eq!(engine.next_deadline(), None);
    let (out, evs) = engine.poll(100_000);
    assert!(out.is_empty() && evs.is_empty());
}

#[test]
fn acknowledged_fin_waits_for_the_peer() {
    let mut engine = Engine::new(4);
    let id = open(&mut engine);
    engine.close_connection(id).unwrap();
    engine.receive(&tcp(CLIENT, SERVER, 101, 5002, ACK, &[]), 0).unwrap();
    let (out, evs) = engine.poll(1_000_000);
    assert!(out.is_empty() && evs.is_empty());
    assert_eq!(engine.state_of(SERVER, CLIENT), Some(TcpState::FinWait));
}
