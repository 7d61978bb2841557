//! The protocol engine: a passive-open TCP state machine per flow, UDP
//! datagram delivery, and the registry from flows to connection identifiers.
use vstd::prelude::*;
use std::collections::HashMap;
use crate::reassembly::{bytes_of, count_leading, drop_slots, leading, store, stored, take_bytes, RECV_BUFFER};
use crate::codec::{check_packet, decode, parse, ParseError};
use crate::packet::{same_family, Endpoint, IpAddr, Packet, PacketView, TcpHeader, Transport, has_flag, ACK, FIN, FIN_ACK, PSH_ACK, RST, RST_ACK, SYN, SYN_ACK};

verus! {

broadcast use vstd::std_specs::hash::group_hash_axioms;

/// Receive window advertised on every segment the engine sends.
pub const WINDOW: u16 = 65535;

/// Largest payload of one segment the engine sends.
pub const MSS: usize = 1460;

/// Largest payload of one UDP datagram over IPv4.
pub const MAX_DATAGRAM: usize = 65507;

/// Largest payload of one UDP datagram over IPv6, without jumbograms.
pub const MAX_DATAGRAM6: usize = 65527;

pub open spec fn max_datagram(a: IpAddr) -> int {
    if a is V4 {
        MAX_DATAGRAM as int
    } else {
        MAX_DATAGRAM6 as int
    }
}

/// First retransmission timeout, in milliseconds; it doubles at each retry.
pub const RTO_MS: u64 = 1000;

/// Retries after which a flow that waits on its peer is closed.
pub const MAX_RETRIES: u32 = 5;

/// Wait before the retry that follows `retries` earlier ones.
pub open spec fn backoff(retries: u32) -> int {
    if retries == 0 {
        RTO_MS as int
    } else if retries == 1 {
        2 * RTO_MS
    } else if retries == 2 {
        4 * RTO_MS
    } else if retries == 3 {
        8 * RTO_MS
    } else if retries == 4 {
        16 * RTO_MS
    } else {
        32 * RTO_MS
    }
}

/// `now` plus the backoff for `retries`, saturating.
pub open spec fn deadline_after(now: u64, retries: u32) -> u64 {
    if now as int + backoff(retries) > u64::MAX {
        u64::MAX
    } else {
        (now + backoff(retries)) as u64
    }
}

fn next_deadline_for(now: u64, retries: u32) -> (r: u64)
    ensures
        r == deadline_after(now, retries),
{
    let b: u64 = if retries == 0 {
        RTO_MS
    } else if retries == 1 {
        2 * RTO_MS
    } else if retries == 2 {
        4 * RTO_MS
    } else if retries == 3 {
        8 * RTO_MS
    } else if retries == 4 {
        16 * RTO_MS
    } else {
        32 * RTO_MS
    };
    if now > u64::MAX - b {
        u64::MAX
    } else {
        now + b
    }
}

#[derive(Clone, Copy, Debug, PartialEq, Eq, Structural)]
pub enum TcpState {
    /// SYN/ACK sent, waiting for the peer's ACK.
    SynReceived,
    Established,
    /// FIN sent after a local close, waiting for the peer's FIN.
    FinWait,
}

/// A registered TCP flow: `local` is the address the peer connected to.
#[derive(Clone, Copy, Debug, PartialEq, Eq, Structural)]
pub struct Socket {
    pub id: u64,
    pub local: Endpoint,
    pub remote: Endpoint,
    pub state: TcpState,
    /// Oldest sequence number the peer has not acknowledged.
    pub snd_una: u32,
    /// Next sequence number the engine will send.
    pub snd_nxt: u32,
    /// Next sequence number expected from the peer.
    pub rcv_nxt: u32,
    /// When what the peer has not acknowledged is sent again, in
    /// milliseconds of the engine's clock.
    pub deadline: u64,
    /// How many times it has been sent again.
    pub retries: u32,
}

#[derive(Clone, Copy, Debug, PartialEq, Eq, Structural)]
pub enum CloseReason {
    /// The peer sent FIN.
    Remote,
    /// The peer sent RST.
    Reset,
    /// The peer did not acknowledge data or a FIN in time.
    Timeout,
}

#[derive(Debug)]
pub enum Event {
    ConnectionEstablished { id: u64, src: Endpoint, dst: Endpoint },
    DataReceived { id: u64, data: Vec<u8> },
    ConnectionClosed { id: u64, reason: CloseReason },
    DatagramReceived { src: Endpoint, dst: Endpoint, data: Vec<u8> },
}

pub enum EventView {
    ConnectionEstablished { id: u64, src: Endpoint, dst: Endpoint },
    DataReceived { id: u64, data: Seq<u8> },
    ConnectionClosed { id: u64, reason: CloseReason },
    DatagramReceived { src: Endpoint, dst: Endpoint, data: Seq<u8> },
}

impl View for Event {
    type V = EventView;

    open spec fn view(&self) -> EventView {
        match self {
            Event::ConnectionEstablished { id, src, dst } => EventView::ConnectionEstablished {
                id: *id,
                src: *src,
                dst: *dst,
            },
            Event::DataReceived { id, data } => EventView::DataReceived { id: *id, data: data@ },
            Event::ConnectionClosed { id, reason } => EventView::ConnectionClosed {
                id: *id,
                reason: *reason,
            },
            Event::DatagramReceived { src, dst, data } => EventView::DatagramReceived {
                src: *src,
                dst: *dst,
                data: data@,
            },
        }
    }
}

impl EventView {
    /// The connection an event speaks of, if any.
    pub open spec fn conn(&self) -> Option<u64> {
        match self {
            EventView::ConnectionEstablished { id, .. } => Some(*id),
            EventView::DataReceived { id, .. } => Some(*id),
            EventView::ConnectionClosed { id, .. } => Some(*id),
            EventView::DatagramReceived { .. } => None,
        }
    }
}

pub open spec fn views(evs: Seq<Event>) -> Seq<EventView> {
    evs.map_values(|e: Event| e@)
}

pub open spec fn packet_views(ps: Seq<Packet>) -> Seq<PacketView> {
    ps.map_values(|p: Packet| p@)
}

/// Sequence-number arithmetic, modulo 2^32.
pub open spec fn seq_add(x: u32, n: int) -> u32 {
    ((x as int + n) % 0x1_0000_0000) as u32
}

fn seq_plus(x: u32, n: u32) -> (r: u32)
    ensures
        r == seq_add(x, n as int),
{
    ((x as u64 + n as u64) % 0x1_0000_0000) as u32
}

pub open spec fn live(s: Seq<Socket>, id: u64) -> bool {
    exists|i: int| 0 <= i < s.len() && (#[trigger] s[i]).id == id
}

pub open spec fn flow_at(s: Seq<Socket>, i: int, local: Endpoint, remote: Endpoint) -> bool {
    0 <= i < s.len() && s[i].local == local && s[i].remote == remote
}

pub open spec fn has_flow(s: Seq<Socket>, local: Endpoint, remote: Endpoint) -> bool {
    exists|i: int| flow_at(s, i, local, remote)
}

/// The registry's invariant: identifiers below the counter, both ends of a
/// flow of one family, no identifier and no flow registered twice, no more
/// flows than the limit.
pub open spec fn registry_wf(s: Seq<Socket>, next_id: u64, max_flows: usize) -> bool {
    &&& s.len() <= max_flows
    &&& forall|i: int| 0 <= i < s.len() ==> (#[trigger] s[i]).id < next_id
    &&& forall|i: int| 0 <= i < s.len() ==> same_family((#[trigger] s[i]).local.addr, s[i].remote.addr)
    &&& forall|i: int, j: int|
        0 <= i < s.len() && 0 <= j < s.len() && i != j ==> (#[trigger] s[i]).id != (#[trigger] s[j]).id
            && !(s[i].local == s[j].local && s[i].remote == s[j].remote)
}

/// What every step of the engine does to the registry and reports: the
/// counter only grows; a flow that appears takes a fresh identifier; every
/// event names a connection registered before or after the step; a
/// connection reported closed was registered before and is gone after, no
/// later event of the step names it, and no earlier one closes it.
pub open spec fn step_ok(
    pre: Seq<Socket>,
    pre_next: u64,
    post: Seq<Socket>,
    post_next: u64,
    evs: Seq<EventView>,
) -> bool {
    &&& pre_next <= post_next
    &&& forall|c: u64| #[trigger] live(post, c) ==> live(pre, c) || pre_next <= c < post_next
    &&& forall|k: int|
        0 <= k < evs.len() && (#[trigger] evs[k]).conn() is Some ==> live(pre, evs[k].conn()->0)
            || live(post, evs[k].conn()->0)
    &&& forall|k: int|
        0 <= k < evs.len() && (#[trigger] evs[k]) is ConnectionClosed ==> {
            let c = evs[k].conn()->0;
            &&& live(pre, c)
            &&& !live(post, c)
            &&& forall|j: int| k < j < evs.len() ==> (#[trigger] evs[j]).conn() != Some(c)
            &&& forall|j: int|
                0 <= j < k ==> !((#[trigger] evs[j]) is ConnectionClosed && evs[j].conn() == Some(c))
        }
}

/// `a - b` in sequence space, modulo 2^32.
pub open spec fn seq_diff(a: u32, b: u32) -> int {
    (a as int - b as int + 0x1_0000_0000) % 0x1_0000_0000
}

/// How many sent bytes (counting a SYN or FIN as one) the acknowledgment
/// number of `h` newly acknowledges: none unless it lies past `snd_una` and
/// not past `snd_nxt`.
pub open spec fn ack_advance(s: Socket, h: TcpHeader) -> int {
    if has_flag(h.flags, ACK) && 0 < seq_diff(h.ack, s.snd_una) && seq_diff(h.ack, s.snd_una) <= seq_diff(
        s.snd_nxt,
        s.snd_una,
    ) {
        seq_diff(h.ack, s.snd_una)
    } else {
        0
    }
}

/// The flow after the acknowledgment of `h`: progress moves `snd_una` and
/// restarts the retransmission timer.
pub open spec fn acked(s: Socket, h: TcpHeader, clock: u64) -> Socket {
    if ack_advance(s, h) > 0 {
        Socket { snd_una: h.ack, retries: 0, deadline: deadline_after(clock, 0), ..s }
    } else {
        s
    }
}

/// `q` without its first `n` bytes.
pub open spec fn drop_front(q: Seq<u8>, n: int) -> Seq<u8> {
    q.subrange(if n < q.len() { n } else { q.len() as int }, q.len() as int)
}

fn ack_advance_of(s: Socket, h: TcpHeader) -> (r: u32)
    ensures
        r as int == ack_advance(s, h),
{
    let n = ((h.ack as u64 + 0x1_0000_0000 - s.snd_una as u64) % 0x1_0000_0000) as u32;
    let outstanding = ((s.snd_nxt as u64 + 0x1_0000_0000 - s.snd_una as u64) % 0x1_0000_0000) as u32;
    if h.flags & ACK != 0 && 0 < n && n <= outstanding {
        n
    } else {
        0
    }
}

/// A segment sent by the engine, without options.
pub open spec fn segment_view(
    src: Endpoint,
    dst: Endpoint,
    seq: u32,
    ack: u32,
    flags: u8,
    payload: Seq<u8>,
) -> PacketView {
    PacketView {
        src,
        dst,
        transport: Transport::Tcp(TcpHeader { seq, ack, flags, window: WINDOW }),
        payload,
    }
}

fn segment(src: Endpoint, dst: Endpoint, seq: u32, ack: u32, flags: u8, payload: Vec<u8>) -> (r: Packet)
    ensures
        r@ == segment_view(src, dst, seq, ack, flags, payload@),
{
    Packet {
        src,
        dst,
        transport: Transport::Tcp(TcpHeader { seq, ack, flags, window: WINDOW }),
        payload,
    }
}

pub open spec fn pending_in(m: Map<u64, Vec<u8>>, c: u64) -> Seq<u8> {
    if m.contains_key(c) {
        m[c]@
    } else {
        Seq::empty()
    }
}

pub open spec fn early_in(m: Map<u64, Vec<Option<u8>>>, c: u64) -> Seq<Option<u8>> {
    if m.contains_key(c) {
        m[c]@
    } else {
        Seq::empty()
    }
}

/// The first segment's worth of `q`.
pub open spec fn first_chunk(q: Seq<u8>) -> Seq<u8> {
    q.subrange(0, if q.len() < MSS { q.len() as int } else { MSS as int })
}

pub struct Engine {
    sockets: Vec<Socket>,
    next_id: u64,
    max_flows: usize,
    clock: u64,
    /// Bytes sent on each connection that the peer has not acknowledged,
    /// from its `snd_una`.
    outbox: HashMap<u64, Vec<u8>>,
    /// Bytes of each connection that arrived ahead of its `rcv_nxt`, one
    /// slot per sequence number from `rcv_nxt`.
    inbox: HashMap<u64, Vec<Option<u8>>>,
}

impl Engine {
    pub closed spec fn sockets(&self) -> Seq<Socket> {
        self.sockets@
    }

    pub closed spec fn next_id(&self) -> u64 {
        self.next_id
    }

    pub closed spec fn max_flows(&self) -> usize {
        self.max_flows
    }

    pub closed spec fn outbox(&self) -> Map<u64, Vec<u8>> {
        self.outbox@
    }

    pub closed spec fn inbox(&self) -> Map<u64, Vec<Option<u8>>> {
        self.inbox@
    }

    /// The receive buffer of connection `c`.
    pub open spec fn early(&self, c: u64) -> Seq<Option<u8>> {
        early_in(self.inbox(), c)
    }

    /// The bytes sent on connection `c` that its peer has not acknowledged.
    pub open spec fn pending(&self, c: u64) -> Seq<u8> {
        pending_in(self.outbox(), c)
    }

    /// The time of the last `poll`, in milliseconds.
    pub closed spec fn clock(&self) -> u64 {
        self.clock
    }

    pub open spec fn wf(&self) -> bool {
        registry_wf(self.sockets(), self.next_id(), self.max_flows())
    }

    /// An engine with no flows that admits at most `max_flows` at a time.
    pub fn new(max_flows: usize) -> (r: Engine)
        ensures
            r.wf(),
            r.sockets() == Seq::<Socket>::empty(),
            r.next_id() == 0,
            r.max_flows() == max_flows,
            r.clock() == 0,
            forall|c: u64| #[trigger] r.pending(c) == Seq::<u8>::empty(),
            forall|c: u64| #[trigger] r.early(c) == Seq::<Option<u8>>::empty(),
    {
        Engine { sockets: Vec::new(), next_id: 0, max_flows, clock: 0, outbox: HashMap::new(), inbox: HashMap::new() }
    }

    pub fn flow_count(&self) -> (r: usize)
        ensures
            r == self.sockets().len(),
    {
        self.sockets.len()
    }

    /// The state of the flow from `remote` to `local`, if one is registered.
    pub fn state_of(&self, local: Endpoint, remote: Endpoint) -> (r: Option<TcpState>)
        requires
            self.wf(),
        ensures
            r is None <==> !has_flow(self.sockets(), local, remote),
            r matches Some(st) ==> exists|i: int|
                flow_at(self.sockets(), i, local, remote) && self.sockets()[i].state == st,
    {
        match self.find_flow(local, remote) {
            Some(i) => Some(self.sockets[i].state),
            None => None,
        }
    }

    fn find_flow(&self, local: Endpoint, remote: Endpoint) -> (r: Option<usize>)
        ensures
            match r {
                Some(i) => flow_at(self.sockets@, i as int, local, remote),
                None => !has_flow(self.sockets@, local, remote),
            },
    {
        let mut i: usize = 0;
        while i < self.sockets.len()
            invariant
                i <= self.sockets@.len(),
                forall|j: int| 0 <= j < i ==> !flow_at(self.sockets@, j, local, remote),
            decreases self.sockets@.len() - i,
        {
            if self.sockets[i].local == local && self.sockets[i].remote == remote {
                return Some(i);
            }
            i = i + 1;
        }
        None
    }

    fn find_id(&self, id: u64) -> (r: Option<usize>)
        ensures
            match r {
                Some(i) => i < self.sockets@.len() && self.sockets@[i as int].id == id,
                None => !live(self.sockets@, id),
            },
    {
        let mut i: usize = 0;
        while i < self.sockets.len()
            invariant
                i <= self.sockets@.len(),
                forall|j: int| 0 <= j < i ==> self.sockets@[j].id != id,
            decreases self.sockets@.len() - i,
        {
            if self.sockets[i].id == id {
                return Some(i);
            }
            i = i + 1;
        }
        None
    }
}


pub open spec fn seg_len(h: TcpHeader, payload: Seq<u8>) -> int {
    payload.len() + (if has_flag(h.flags, SYN) { 1int } else { 0int }) + (if has_flag(h.flags, FIN) {
        1int
    } else {
        0int
    })
}

/// The reset sent for a segment that belongs to no flow.
pub open spec fn reset_for(p: PacketView, h: TcpHeader) -> PacketView {
    segment_view(
        p.dst,
        p.src,
        if has_flag(h.flags, ACK) { h.ack } else { 0 },
        seq_add(h.seq, seg_len(h, p.payload)),
        RST_ACK,
        Seq::empty(),
    )
}

pub open spec fn unchanged(
    pre: Seq<Socket>,
    next: u64,
    post: Seq<Socket>,
    post_next: u64,
    evs: Seq<EventView>,
) -> bool {
    post == pre && post_next == next && evs.len() == 0
}

/// What a TCP segment from `p.src` to `p.dst` does, by the flow it belongs to.
pub open spec fn tcp_outcome(
    pre: Seq<Socket>,
    next: u64,
    max_flows: usize,
    clock: u64,
    inbox: Map<u64, Vec<Option<u8>>>,
    p: PacketView,
    h: TcpHeader,
    isn: u32,
    post: Seq<Socket>,
    post_next: u64,
    out: Seq<PacketView>,
    evs: Seq<EventView>,
) -> bool {
    let local = p.dst;
    let remote = p.src;
    let data = p.payload;
    if !has_flow(pre, local, remote) {
        if has_flag(h.flags, RST) {
            unchanged(pre, next, post, post_next, evs) && out.len() == 0
        } else if has_flag(h.flags, SYN) && !has_flag(h.flags, ACK) {
            if pre.len() < max_flows && next < u64::MAX {
                &&& post == pre.push(
                    Socket {
                        id: next,
                        local,
                        remote,
                        state: TcpState::SynReceived,
                        snd_una: isn,
                        snd_nxt: seq_add(isn, 1),
                        rcv_nxt: seq_add(h.seq, 1),
                        deadline: deadline_after(clock, 0),
                        retries: 0,
                    },
                )
                &&& post_next == next + 1
                &&& evs.len() == 0
                &&& out == seq![
                    segment_view(local, remote, isn, seq_add(h.seq, 1), SYN_ACK, Seq::empty()),
                ]
            } else {
                unchanged(pre, next, post, post_next, evs) && out.len() == 0
            }
        } else {
            unchanged(pre, next, post, post_next, evs) && out == seq![reset_for(p, h)]
        }
    } else {
        let i = choose|i: int| flow_at(pre, i, local, remote);
        let s = pre[i];
        if has_flag(h.flags, RST) {
            if h.seq != s.rcv_nxt {
                unchanged(pre, next, post, post_next, evs) && out.len() == 0
            } else {
                &&& post == pre.remove(i)
                &&& post_next == next
                &&& out.len() == 0
                &&& evs == if s.state == TcpState::SynReceived {
                    Seq::empty()
                } else {
                    seq![EventView::ConnectionClosed { id: s.id, reason: CloseReason::Reset }]
                }
            }
        } else if s.state == TcpState::SynReceived {
            if has_flag(h.flags, ACK) && h.ack == s.snd_nxt && h.seq == s.rcv_nxt {
                let rcv = seq_add(s.rcv_nxt, data.len() as int);
                let est = EventView::ConnectionEstablished { id: s.id, src: remote, dst: local };
                &&& post == pre.update(
                    i,
                    Socket { state: TcpState::Established, snd_una: s.snd_nxt, rcv_nxt: rcv, retries: 0, ..s },
                )
                &&& post_next == next
                &&& if data.len() == 0 {
                    evs == seq![est] && out.len() == 0
                } else {
                    &&& evs == seq![est, EventView::DataReceived { id: s.id, data }]
                    &&& out == seq![segment_view(local, remote, s.snd_nxt, rcv, ACK, Seq::empty())]
                }
            } else if has_flag(h.flags, SYN) && seq_add(h.seq, 1) == s.rcv_nxt {
                &&& unchanged(pre, next, post, post_next, evs)
                &&& out == seq![
                    segment_view(
                        local,
                        remote,
                        seq_add(s.snd_nxt, 0xffff_ffff),
                        s.rcv_nxt,
                        SYN_ACK,
                        Seq::empty(),
                    ),
                ]
            } else {
                unchanged(pre, next, post, post_next, evs) && out.len() == 0
            }
        } else {
            let s1 = acked(s, h, clock);
            let w = stored(early_in(inbox, s.id), 0, data);
            let k = leading(w) as int;
            let rcv = seq_add(s.rcv_nxt, k);
            let delivered = if k > 0 {
                seq![EventView::DataReceived { id: s.id, data: bytes_of(w, k) }]
            } else {
                Seq::empty()
            };
            if h.seq != s.rcv_nxt {
                &&& post == pre.update(i, s1)
                &&& post_next == next
                &&& evs.len() == 0
                &&& out == seq![segment_view(local, remote, s1.snd_nxt, s1.rcv_nxt, ACK, Seq::empty())]
            } else if has_flag(h.flags, FIN) {
                &&& post == pre.remove(i)
                &&& post_next == next
                &&& evs == delivered.push(
                    EventView::ConnectionClosed { id: s.id, reason: CloseReason::Remote },
                )
                &&& out == seq![
                    segment_view(
                        local,
                        remote,
                        s1.snd_nxt,
                        seq_add(rcv, 1),
                        if s.state == TcpState::Established { FIN_ACK } else { ACK },
                        Seq::empty(),
                    ),
                ]
            } else if k > 0 {
                &&& post == pre.update(i, Socket { rcv_nxt: rcv, ..s1 })
                &&& post_next == next
                &&& evs == delivered
                &&& out == seq![segment_view(local, remote, s1.snd_nxt, rcv, ACK, Seq::empty())]
            } else {
                &&& post == pre.update(i, s1)
                &&& post_next == next
                &&& evs.len() == 0
                &&& out.len() == 0
            }
        }
    }
}

/// The receive buffer of connection `c` after the packet `p`: a segment at
/// the next expected sequence number is written in and the filled front is
/// delivered (all of it, on FIN); a segment ahead of it that fits the buffer
/// is written in at its offset.
pub open spec fn early_after(pre: Engine, p: PacketView, c: u64) -> Seq<Option<u8>> {
    match p.transport {
        Transport::Tcp(h) => if has_flow(pre.sockets(), p.dst, p.src) {
            let s = pre.sockets()[choose|i: int| flow_at(pre.sockets(), i, p.dst, p.src)];
            if s.id == c && !has_flag(h.flags, RST) && s.state != TcpState::SynReceived {
                let buf = pre.early(c);
                let d = seq_diff(h.seq, s.rcv_nxt);
                if d == 0 {
                    if has_flag(h.flags, FIN) {
                        Seq::empty()
                    } else {
                        let w = stored(buf, 0, p.payload);
                        w.subrange(leading(w) as int, w.len() as int)
                    }
                } else if d + p.payload.len() <= RECV_BUFFER {
                    stored(buf, d, p.payload)
                } else {
                    buf
                }
            } else {
                pre.early(c)
            }
        } else {
            pre.early(c)
        },
        Transport::Udp => pre.early(c),
    }
}

/// How many bytes of connection `c`'s unacknowledged data the packet `p`
/// acknowledges.
pub open spec fn acked_bytes(pre: Engine, p: PacketView, c: u64) -> int {
    match p.transport {
        Transport::Tcp(h) => if has_flow(pre.sockets(), p.dst, p.src) {
            let s = pre.sockets()[choose|i: int| flow_at(pre.sockets(), i, p.dst, p.src)];
            if s.id == c && !has_flag(h.flags, RST) && s.state != TcpState::SynReceived {
                ack_advance(s, h)
            } else {
                0
            }
        } else {
            0
        },
        Transport::Udp => 0,
    }
}

/// What one inbound packet does: a datagram is reported as it came and
/// touches no flow; a segment goes by `tcp_outcome`.
pub open spec fn packet_outcome(
    pre: Engine,
    post: Engine,
    p: PacketView,
    isn: u32,
    out: Seq<PacketView>,
    evs: Seq<EventView>,
) -> bool {
    match p.transport {
        Transport::Udp => {
            &&& unchanged(pre.sockets(), pre.next_id(), post.sockets(), post.next_id(), Seq::empty())
            &&& out.len() == 0
            &&& evs == seq![EventView::DatagramReceived { src: p.src, dst: p.dst, data: p.payload }]
        },
        Transport::Tcp(h) => tcp_outcome(
            pre.sockets(),
            pre.next_id(),
            pre.max_flows(),
            pre.clock(),
            pre.inbox(),
            p,
            h,
            isn,
            post.sockets(),
            post.next_id(),
            out,
            evs,
        ),
    }
}

/// The views of at most one packet and at most two events, spelled out.
proof fn lemma_short_views(out: Seq<Packet>, evs: Seq<Event>)
    ensures
        out.len() == 0 ==> packet_views(out) == Seq::<PacketView>::empty(),
        out.len() == 1 ==> packet_views(out) == seq![out[0]@],
        evs.len() == 0 ==> views(evs) == Seq::<EventView>::empty(),
        evs.len() == 1 ==> views(evs) == seq![evs[0]@],
        evs.len() == 2 ==> views(evs) == seq![evs[0]@, evs[1]@],
{
    if out.len() == 1 {
        assert(packet_views(out) =~= seq![out[0]@]);
    } else if out.len() == 0 {
        assert(packet_views(out) =~= Seq::<PacketView>::empty());
    }
    if evs.len() == 2 {
        assert(views(evs) =~= seq![evs[0]@, evs[1]@]);
    } else if evs.len() == 1 {
        assert(views(evs) =~= seq![evs[0]@]);
    } else if evs.len() == 0 {
        assert(views(evs) =~= Seq::<EventView>::empty());
    }
}

pub(crate) proof fn lemma_flow_unique(s: Seq<Socket>, next: u64, max: usize, i: int, local: Endpoint, remote: Endpoint)
    requires
        registry_wf(s, next, max),
        flow_at(s, i, local, remote),
    ensures
        (choose|j: int| flow_at(s, j, local, remote)) == i,
{
    let j = choose|j: int| flow_at(s, j, local, remote);
    assert(flow_at(s, j, local, remote));
    if j != i {
        assert(s[i].local == s[j].local && s[i].remote == s[j].remote);
    }
}

proof fn lemma_live_push(s: Seq<Socket>, x: Socket)
    ensures
        forall|c: u64| #[trigger] live(s.push(x), c) <==> live(s, c) || c == x.id,
{
    assert forall|c: u64| #[trigger] live(s.push(x), c) <==> live(s, c) || c == x.id by {
        if live(s, c) {
            let i = choose|i: int| 0 <= i < s.len() && (#[trigger] s[i]).id == c;
            assert(s.push(x)[i] == s[i]);
        }
        if c == x.id {
            assert(s.push(x)[s.len() as int] == x);
        }
        if live(s.push(x), c) {
            let i = choose|i: int| 0 <= i < s.push(x).len() && (#[trigger] s.push(x)[i]).id == c;
            if i < s.len() {
                assert(s[i] == s.push(x)[i]);
            }
        }
    }
}

proof fn lemma_live_remove(s: Seq<Socket>, next: u64, max: usize, i: int)
    requires
        registry_wf(s, next, max),
        0 <= i < s.len(),
    ensures
        forall|c: u64| #[trigger] live(s.remove(i), c) <==> live(s, c) && c != s[i].id,
        registry_wf(s.remove(i), next, max),
{
    let r = s.remove(i);
    assert forall|c: u64| #[trigger] live(r, c) <==> live(s, c) && c != s[i].id by {
        if live(r, c) {
            let j = choose|j: int| 0 <= j < r.len() && (#[trigger] r[j]).id == c;
            let k = if j < i { j } else { j + 1 };
            assert(r[j] == s[k]);
        }
        if live(s, c) && c != s[i].id {
            let k = choose|k: int| 0 <= k < s.len() && (#[trigger] s[k]).id == c;
            let j = if k < i { k } else { k - 1 };
            assert(r[j] == s[k]);
        }
    }
    assert forall|a: int, b: int|
        0 <= a < r.len() && 0 <= b < r.len() && a != b implies (#[trigger] r[a]).id != (
        #[trigger] r[b]).id && !(r[a].local == r[b].local && r[a].remote == r[b].remote) by {
        let a2 = if a < i { a } else { a + 1 };
        let b2 = if b < i { b } else { b + 1 };
        assert(r[a] == s[a2] && r[b] == s[b2]);
    }
    assert forall|a: int| 0 <= a < r.len() implies (#[trigger] r[a]).id < next by {
        let a2 = if a < i { a } else { a + 1 };
        assert(r[a] == s[a2]);
    }
}

proof fn lemma_live_update(s: Seq<Socket>, next: u64, max: usize, i: int, x: Socket)
    requires
        registry_wf(s, next, max),
        0 <= i < s.len(),
        x.id == s[i].id,
        x.local == s[i].local,
        x.remote == s[i].remote,
    ensures
        forall|c: u64| #[trigger] live(s.update(i, x), c) <==> live(s, c),
        registry_wf(s.update(i, x), next, max),
{
    let r = s.update(i, x);
    assert forall|c: u64| #[trigger] live(r, c) <==> live(s, c) by {
        if live(r, c) {
            let j = choose|j: int| 0 <= j < r.len() && (#[trigger] r[j]).id == c;
            assert(s[j].id == c);
        }
        if live(s, c) {
            let j = choose|j: int| 0 <= j < s.len() && (#[trigger] s[j]).id == c;
            assert(r[j].id == c);
        }
    }
}

impl Engine {
    /// Handles one inbound packet. `isn` is the initial sequence number the
    /// engine uses if the packet opens a flow.
    pub fn handle_packet(&mut self, p: Packet, isn: u32) -> (r: (Vec<Packet>, Vec<Event>))
        requires
            old(self).wf(),
            p@.wf(),
        ensures
            final(self).wf(),
            final(self).max_flows() == old(self).max_flows(),
            final(self).clock() == old(self).clock(),
            step_ok(
                old(self).sockets(),
                old(self).next_id(),
                final(self).sockets(),
                final(self).next_id(),
                views(r.1@),
            ),
            forall|k: int| 0 <= k < r.0@.len() ==> (#[trigger] r.0@[k])@.wf(),
            packet_outcome(*old(self), *final(self), p@, isn, packet_views(r.0@), views(r.1@)),
            forall|c: u64|
                #[trigger] final(self).pending(c) == drop_front(old(self).pending(c), acked_bytes(*old(self), p@, c)),
            forall|c: u64| #[trigger] final(self).early(c) == early_after(*old(self), p@, c),
    {
        let mut out: Vec<Packet> = Vec::new();
        let mut evs: Vec<Event> = Vec::new();
        let local = p.dst;
        let remote = p.src;
        let h = match p.transport {
            Transport::Udp => {
                evs.push(Event::DatagramReceived { src: p.src, dst: p.dst, data: p.payload });
                assert(views(evs@) =~= seq![
                    EventView::DatagramReceived { src: p@.src, dst: p@.dst, data: p@.payload },
                ]);
                assert forall|c: u64| #[trigger] self.pending(c) == drop_front(self.pending(c), 0) by {
                    assert(drop_front(self.pending(c), 0) =~= self.pending(c));
                }
                return (out, evs);
            },
            Transport::Tcp(h) => h,
        };
        match self.find_flow(local, remote) {
            None => self.on_unknown_flow(p, h, isn),
            Some(i) => {
                proof { lemma_flow_unique(self.sockets@, self.next_id, self.max_flows, i as int, local, remote); }
                self.on_flow(i, p, h)
            },
        }
    }

    #[verifier::rlimit(60)]
    fn on_unknown_flow(&mut self, p: Packet, h: TcpHeader, isn: u32) -> (r: (Vec<Packet>, Vec<Event>))
        requires
            old(self).wf(),
            p@.wf(),
            p@.transport == Transport::Tcp(h),
            !has_flow(old(self).sockets(), p@.dst, p@.src),
        ensures
            final(self).wf(),
            final(self).max_flows() == old(self).max_flows(),
            final(self).clock() == old(self).clock(),
            step_ok(
                old(self).sockets(),
                old(self).next_id(),
                final(self).sockets(),
                final(self).next_id(),
                views(r.1@),
            ),
            forall|k: int| 0 <= k < r.0@.len() ==> (#[trigger] r.0@[k])@.wf(),
            tcp_outcome(
                old(self).sockets(),
                old(self).next_id(),
                old(self).max_flows(),
                old(self).clock(),
                old(self).inbox(),
                p@,
                h,
                isn,
                final(self).sockets(),
                final(self).next_id(),
                packet_views(r.0@),
                views(r.1@),
            ),
            forall|c: u64|
                #[trigger] final(self).pending(c) == drop_front(old(self).pending(c), acked_bytes(*old(self), p@, c)),
            forall|c: u64| #[trigger] final(self).early(c) == early_after(*old(self), p@, c),
    {
        let mut out: Vec<Packet> = Vec::new();
        let mut evs: Vec<Event> = Vec::new();
        let local = p.dst;
        let remote = p.src;
        let ghost pre = self.sockets@;
        if h.flags & RST != 0 {
        } else if h.flags & SYN != 0 && h.flags & ACK == 0 {
            if self.sockets.len() < self.max_flows && self.next_id < u64::MAX {
                let s = Socket {
                    id: self.next_id,
                    local,
                    remote,
                    state: TcpState::SynReceived,
                    snd_una: isn,
                    snd_nxt: seq_plus(isn, 1),
                    rcv_nxt: seq_plus(h.seq, 1),
                    deadline: next_deadline_for(self.clock, 0),
                    retries: 0,
                };
                proof {
                    lemma_live_push(pre, s);
                    let post = pre.push(s);
                    assert forall|a: int, b: int|
                        0 <= a < post.len() && 0 <= b < post.len() && a != b implies (
                        #[trigger] post[a]).id != (#[trigger] post[b]).id && !(post[a].local
                            == post[b].local && post[a].remote == post[b].remote) by {
                        if a == pre.len() {
                            assert(!flow_at(pre, b, local, remote));
                        } else if b == pre.len() {
                            assert(!flow_at(pre, a, local, remote));
                        }
                    }
                }
                self.sockets.push(s);
                self.next_id = self.next_id + 1;
                out.push(segment(local, remote, isn, s.rcv_nxt, SYN_ACK, Vec::new()));
            }
        } else {
            let len: u32 = p.payload.len() as u32;
            let len = if h.flags & SYN != 0 { seq_plus(len, 1) } else { len };
            let len = if h.flags & FIN != 0 { seq_plus(len, 1) } else { len };
            let seq = if h.flags & ACK != 0 { h.ack } else { 0 };
            out.push(segment(local, remote, seq, seq_plus(h.seq, len), RST_ACK, Vec::new()));
        }

        proof {
            lemma_short_views(out@, evs@);
            assert forall|c: u64| #[trigger] old(self).pending(c) == drop_front(old(self).pending(c), 0) by {
                assert(drop_front(old(self).pending(c), 0) =~= old(self).pending(c));
            }
        }
        (out, evs)
    }

    #[verifier::rlimit(100)]
    fn on_flow(&mut self, i: usize, p: Packet, h: TcpHeader) -> (r: (Vec<Packet>, Vec<Event>))
        requires
            old(self).wf(),
            p@.wf(),
            p@.transport == Transport::Tcp(h),
            flow_at(old(self).sockets(), i as int, p@.dst, p@.src),
            (choose|j: int| flow_at(old(self).sockets(), j, p@.dst, p@.src)) == i,
        ensures
            final(self).wf(),
            final(self).max_flows() == old(self).max_flows(),
            final(self).clock() == old(self).clock(),
            step_ok(
                old(self).sockets(),
                old(self).next_id(),
                final(self).sockets(),
                final(self).next_id(),
                views(r.1@),
            ),
            forall|k: int| 0 <= k < r.0@.len() ==> (#[trigger] r.0@[k])@.wf(),
            tcp_outcome(
                old(self).sockets(),
                old(self).next_id(),
                old(self).max_flows(),
                old(self).clock(),
                old(self).inbox(),
                p@,
                h,
                0,
                final(self).sockets(),
                final(self).next_id(),
                packet_views(r.0@),
                views(r.1@),
            ),
            forall|c: u64|
                #[trigger] final(self).pending(c) == drop_front(old(self).pending(c), acked_bytes(*old(self), p@, c)),
            forall|c: u64| #[trigger] final(self).early(c) == early_after(*old(self), p@, c),
    {
        let mut out: Vec<Packet> = Vec::new();
        let mut evs: Vec<Event> = Vec::new();
        let local = p.dst;
        let remote = p.src;
        let ghost pre = self.sockets@;
        let ghost mut ob1 = self.outbox@;
        let ghost mut ib1 = self.inbox@;
        let s = self.sockets[i];
        let len = p.payload.len();
        if h.flags & RST != 0 {
            if h.seq == s.rcv_nxt {
                proof { lemma_live_remove(pre, self.next_id, self.max_flows, i as int); }
                self.sockets.remove(i);
                if s.state != TcpState::SynReceived {
                    evs.push(Event::ConnectionClosed { id: s.id, reason: CloseReason::Reset });
                }
            }
        } else if s.state == TcpState::SynReceived {
            if h.flags & ACK != 0 && h.ack == s.snd_nxt && h.seq == s.rcv_nxt {
                let rcv = seq_plus(s.rcv_nxt, len as u32);
                let s2 = Socket { state: TcpState::Established, snd_una: s.snd_nxt, rcv_nxt: rcv, retries: 0, ..s };
                proof { lemma_live_update(pre, self.next_id, self.max_flows, i as int, s2); }
                self.sockets.set(i, s2);
                evs.push(Event::ConnectionEstablished { id: s.id, src: remote, dst: local });
                if len > 0 {
                    evs.push(Event::DataReceived { id: s.id, data: p.payload });
                    out.push(segment(local, remote, s.snd_nxt, rcv, ACK, Vec::new()));
                }
            } else if h.flags & SYN != 0 && seq_plus(h.seq, 1) == s.rcv_nxt {
                let iss = seq_plus(s.snd_nxt, 0xffff_ffff);
                out.push(segment(local, remote, iss, s.rcv_nxt, SYN_ACK, Vec::new()));
            }
        } else {
            let adv = ack_advance_of(s, h);
            let s1 = if adv > 0 {
                Socket { snd_una: h.ack, retries: 0, deadline: next_deadline_for(self.clock, 0), ..s }
            } else {
                s
            };
            proof { lemma_live_update(pre, self.next_id, self.max_flows, i as int, s1); }
            self.sockets.set(i, s1);
            self.trim_outbox(s.id, adv);
            proof {
                assert(flow_at(old(self).sockets(), i as int, p@.dst, p@.src));
                assert(acked_bytes(*old(self), p@, s.id) == adv as int);
                ob1 = self.outbox@;
                assert forall|c: u64|
                    #[trigger] pending_in(ob1, c) == drop_front(old(self).pending(c), acked_bytes(*old(self), p@, c)) by {
                    assert(pending_in(ob1, c) == self.pending(c));
                    if c != s.id {
                        assert(drop_front(old(self).pending(c), 0) =~= old(self).pending(c));
                    }
                }
            }
            let ghost pre1 = self.sockets@;
            let buf: Vec<Option<u8>> = match self.inbox.remove(&s.id) {
                Some(b) => b,
                None => Vec::new(),
            };
            proof {
                assert(buf@ == early_in(old(self).inbox(), s.id));
            }
            if h.seq != s.rcv_nxt {
                let d: u32 = ((h.seq as u64 + 0x1_0000_0000 - s.rcv_nxt as u64) % 0x1_0000_0000) as u32;
                let kept = if (d as usize) <= RECV_BUFFER && (d as usize) + len <= RECV_BUFFER {
                    store(&buf, d as usize, p.payload.as_slice())
                } else {
                    buf
                };
                self.inbox.insert(s.id, kept);
                out.push(segment(local, remote, s1.snd_nxt, s1.rcv_nxt, ACK, Vec::new()));
            } else {
                let w = store(&buf, 0, p.payload.as_slice());
                let k = count_leading(&w);
                let bytes = take_bytes(&w, k);
                let kk: u64 = (k as u64) % 0x1_0000_0000;
                let rcv = ((s.rcv_nxt as u64 + kk) % 0x1_0000_0000) as u32;
                proof {
                    vstd::arithmetic::div_mod::lemma_add_mod_noop(s.rcv_nxt as int, k as int, 0x1_0000_0000);
                    vstd::arithmetic::div_mod::lemma_mod_twice(s.rcv_nxt as int, 0x1_0000_0000);
                    vstd::arithmetic::div_mod::lemma_add_mod_noop(s.rcv_nxt as int, kk as int, 0x1_0000_0000);
                    vstd::arithmetic::div_mod::lemma_mod_twice(k as int, 0x1_0000_0000);
                    assert(rcv == seq_add(s.rcv_nxt, k as int));
                }
                if h.flags & FIN != 0 {
                    proof {
                        lemma_live_remove(pre1, self.next_id, self.max_flows, i as int);
                        assert(pre1.remove(i as int) =~= pre.remove(i as int));
                    }
                    self.sockets.remove(i);
                    if k > 0 {
                        evs.push(Event::DataReceived { id: s.id, data: bytes });
                    }
                    evs.push(Event::ConnectionClosed { id: s.id, reason: CloseReason::Remote });
                    proof {
                        let closed = EventView::ConnectionClosed { id: s.id, reason: CloseReason::Remote };
                        if k > 0 {
                            let dv = EventView::DataReceived { id: s.id, data: bytes_of(w@, k as int) };
                            assert(seq![dv].push(closed) =~= seq![dv, closed]);
                        } else {
                            assert(Seq::<EventView>::empty().push(closed) =~= seq![closed]);
                        }
                    }
                    let flags = if s.state == TcpState::Established { FIN_ACK } else { ACK };
                    out.push(segment(local, remote, s1.snd_nxt, seq_plus(rcv, 1), flags, Vec::new()));
                } else {
                    let rest = drop_slots(&w, k);
                    self.inbox.insert(s.id, rest);
                    if k > 0 {
                        let s2 = Socket { rcv_nxt: rcv, ..s1 };
                        proof {
                            lemma_live_update(pre1, self.next_id, self.max_flows, i as int, s2);
                            assert(pre1.update(i as int, s2) =~= pre.update(i as int, s2));
                        }
                        self.sockets.set(i, s2);
                        evs.push(Event::DataReceived { id: s.id, data: bytes });
                        out.push(segment(local, remote, s1.snd_nxt, rcv, ACK, Vec::new()));
                    }
                }
            }
            proof {
                ib1 = self.inbox@;
                assert forall|c: u64| #[trigger] early_in(ib1, c) == early_after(*old(self), p@, c) by {
                    assert(old(self).early(c) == early_in(old(self).inbox(), c));
                }
            }
        }

        proof {
            assert(flow_at(old(self).sockets(), i as int, p@.dst, p@.src));
            assert(has_flow(old(self).sockets(), p@.dst, p@.src));
            assert(old(self).sockets()[i as int] == s);
            assert(self.outbox@ == ob1);
            assert(self.inbox@ == ib1);
            assert forall|c: u64| #[trigger] self.early(c) == early_in(ib1, c) by {}
            if h.flags & RST != 0 || s.state == TcpState::SynReceived {
                assert forall|c: u64| #[trigger] early_in(ib1, c) == early_after(*old(self), p@, c) by {}
            }
            assert forall|c: u64| #[trigger] self.pending(c) == pending_in(ob1, c) by {}
            if h.flags & RST != 0 || s.state == TcpState::SynReceived {
                assert forall|c: u64|
                    #[trigger] self.pending(c) == drop_front(old(self).pending(c), acked_bytes(*old(self), p@, c)) by {
                    assert(acked_bytes(*old(self), p@, c) == 0);
                    assert(drop_front(old(self).pending(c), 0) =~= old(self).pending(c));
                }
            }
            lemma_short_views(out@, evs@);
            assert forall|c: u64| #[trigger] old(self).pending(c) == drop_front(old(self).pending(c), 0) by {
                assert(drop_front(old(self).pending(c), 0) =~= old(self).pending(c));
            }
        }
        (out, evs)
    }
}

impl Engine {
    /// Drops the first `n` unacknowledged bytes of connection `id`.
    fn trim_outbox(&mut self, id: u64, n: u32)
        ensures
            final(self).sockets() == old(self).sockets(),
            final(self).next_id() == old(self).next_id(),
            final(self).max_flows() == old(self).max_flows(),
            final(self).clock() == old(self).clock(),
            final(self).inbox() == old(self).inbox(),
            forall|c: u64|
                #[trigger] final(self).pending(c) == if c == id {
                    drop_front(old(self).pending(c), n as int)
                } else {
                    old(self).pending(c)
                },
    {
        if n == 0 {
            assert forall|c: u64| #[trigger] self.pending(c) == drop_front(self.pending(c), 0) by {
                assert(drop_front(self.pending(c), 0) =~= self.pending(c));
            }
            return;
        }
        match self.outbox.remove(&id) {
            Some(q) => {
                let from = if (n as usize) < q.len() { n as usize } else { q.len() };
                let rest = copy_from(&q, from);
                self.outbox.insert(id, rest);
            },
            None => {
                assert(drop_front(Seq::<u8>::empty(), n as int) =~= Seq::<u8>::empty());
            },
        }
    }

    /// Records `data` as sent and not yet acknowledged on connection `id`.
    fn append_outbox(&mut self, id: u64, data: &Vec<u8>)
        ensures
            final(self).sockets() == old(self).sockets(),
            final(self).next_id() == old(self).next_id(),
            final(self).max_flows() == old(self).max_flows(),
            final(self).clock() == old(self).clock(),
            final(self).inbox() == old(self).inbox(),
            forall|c: u64|
                #[trigger] final(self).pending(c) == if c == id {
                    old(self).pending(c) + data@
                } else {
                    old(self).pending(c)
                },
    {
        let mut q = match self.outbox.remove(&id) {
            Some(q) => q,
            None => Vec::new(),
        };
        let mut j: usize = 0;
        let ghost start = q@;
        while j < data.len()
            invariant
                j <= data@.len(),
                q@ == start + data@.subrange(0, j as int),
            decreases data@.len() - j,
        {
            q.push(data[j]);
            j = j + 1;
            assert(q@ =~= start + data@.subrange(0, j as int));
        }
        assert(data@.subrange(0, j as int) =~= data@);
        self.outbox.insert(id, q);
    }

    /// Parses one raw packet from the tunnel and handles it. Bytes that do
    /// not parse are rejected and change nothing.
    pub fn receive(&mut self, bytes: &[u8], isn: u32) -> (r: Result<(Vec<Packet>, Vec<Event>), ParseError>)
        requires
            old(self).wf(),
        ensures
            final(self).wf(),
            final(self).max_flows() == old(self).max_flows(),
            final(self).clock() == old(self).clock(),
            match r {
                Ok((out, evs)) => {
                    &&& check_packet(bytes@) is Ok
                    &&& step_ok(
                        old(self).sockets(),
                        old(self).next_id(),
                        final(self).sockets(),
                        final(self).next_id(),
                        views(evs@),
                    )
                    &&& forall|k: int| 0 <= k < out@.len() ==> (#[trigger] out@[k])@.wf()
                    &&& packet_outcome(*old(self), *final(self), decode(bytes@), isn, packet_views(out@), views(evs@))
                    &&& forall|c: u64| #[trigger] final(self).early(c) == early_after(*old(self), decode(bytes@), c)
                    &&& forall|c: u64|
                        #[trigger] final(self).pending(c) == drop_front(
                            old(self).pending(c),
                            acked_bytes(*old(self), decode(bytes@), c),
                        )
                },
                Err(e) => check_packet(bytes@) == Err::<(), ParseError>(e) && *final(self) == *old(self),
            },
    {
        match parse(bytes) {
            Ok(p) => Ok(self.handle_packet(p, isn)),
            Err(e) => Err(e),
        }
    }
}

#[derive(Clone, Copy, Debug, PartialEq, Eq, Structural)]
pub enum CommandError {
    /// No registered connection has this identifier.
    UnknownConnection,
    /// The connection cannot send: its handshake is not done or it is closing.
    NotEstablished,
    /// The datagram payload is larger than one datagram of its family holds.
    PayloadTooLarge,
    /// The datagram's source and destination are of different families.
    FamilyMismatch,
}

/// The part of `data` that segment `k` carries.
pub open spec fn chunk(data: Seq<u8>, k: int) -> Seq<u8> {
    data.subrange(k * MSS, if (k + 1) * MSS < data.len() { (k + 1) * MSS } else { data.len() as int })
}

/// The payloads of `ps`, one after the other.
pub open spec fn payloads(ps: Seq<PacketView>) -> Seq<u8>
    decreases ps.len(),
{
    if ps.len() == 0 {
        Seq::empty()
    } else {
        payloads(ps.drop_last()) + ps.last().payload
    }
}

proof fn lemma_seq_add_assoc(x: u32, a: int, b: int)
    requires
        0 <= a,
        0 <= b,
    ensures
        seq_add(seq_add(x, a), b) == seq_add(x, a + b),
{
    vstd::arithmetic::div_mod::lemma_add_mod_noop(x as int + a, b, 0x1_0000_0000);
    vstd::arithmetic::div_mod::lemma_mod_twice(b, 0x1_0000_0000);
}

/// Copy of `q[from..]`.
fn copy_from(q: &Vec<u8>, from: usize) -> (r: Vec<u8>)
    requires
        from <= q@.len(),
    ensures
        r@ == q@.subrange(from as int, q@.len() as int),
{
    let mut r: Vec<u8> = Vec::new();
    let mut j: usize = from;
    while j < q.len()
        invariant
            from <= j <= q@.len(),
            r@ == q@.subrange(from as int, j as int),
        decreases q@.len() - j,
    {
        r.push(q[j]);
        j = j + 1;
        assert(r@ =~= q@.subrange(from as int, j as int));
    }
    r
}

/// Index of the socket with identifier `id`.
pub open spec fn index_of(s: Seq<Socket>, id: u64) -> int {
    choose|i: int| 0 <= i < s.len() && s[i].id == id
}

/// Outcome of a command on the connection `id`: the error, if any, by the
/// state it finds the connection in.
pub open spec fn command_check(s: Seq<Socket>, id: u64) -> Result<(), CommandError> {
    if !live(s, id) {
        Err(CommandError::UnknownConnection)
    } else if s[index_of(s, id)].state != TcpState::Established {
        Err(CommandError::NotEstablished)
    } else {
        Ok(())
    }
}

proof fn lemma_index_unique(s: Seq<Socket>, next: u64, max: usize, i: int)
    requires
        registry_wf(s, next, max),
        0 <= i < s.len(),
    ensures
        live(s, s[i].id),
        index_of(s, s[i].id) == i,
{
    assert(s[i].id == s[i].id);
    let j = index_of(s, s[i].id);
    if j != i {
        assert(s[j].id == s[i].id);
    }
}

impl Engine {
    /// Sends `data` on an established connection, cut into segments of at
    /// most `MSS` bytes that follow each other in sequence space.
    pub fn send_data(&mut self, id: u64, data: Vec<u8>) -> (r: Result<Vec<Packet>, CommandError>)
        requires
            old(self).wf(),
        ensures
            final(self).wf(),
            final(self).max_flows() == old(self).max_flows(),
            final(self).clock() == old(self).clock(),
            final(self).next_id() == old(self).next_id(),
            step_ok(old(self).sockets(), old(self).next_id(), final(self).sockets(), final(self).next_id(), Seq::empty()),
            match r {
                Ok(segs) => {
                    let i = index_of(old(self).sockets(), id);
                    let s = old(self).sockets()[i];
                    &&& command_check(old(self).sockets(), id) is Ok
                    &&& payloads(packet_views(segs@)) == data@
                    &&& segs@.len() * MSS >= data@.len()
                    &&& forall|k: int|
                        0 <= k < segs@.len() ==> k * MSS < data@.len() && (#[trigger] segs@[k])@ == segment_view(
                            s.local,
                            s.remote,
                            seq_add(s.snd_nxt, k * MSS),
                            s.rcv_nxt,
                            PSH_ACK,
                            chunk(data@, k),
                        ) && segs@[k]@.wf()
                    &&& final(self).sockets() == old(self).sockets().update(
                        i,
                        Socket {
                            snd_nxt: seq_add(s.snd_nxt, data@.len() as int),
                            deadline: if s.snd_una == s.snd_nxt && data@.len() > 0 {
                                deadline_after(old(self).clock(), 0)
                            } else {
                                s.deadline
                            },
                            retries: if s.snd_una == s.snd_nxt && data@.len() > 0 { 0 } else { s.retries },
                            ..s
                        },
                    )
                    &&& forall|c: u64|
                        #[trigger] final(self).pending(c) == if c == id {
                            old(self).pending(c) + data@
                        } else {
                            old(self).pending(c)
                        }
                },
                Err(e) => {
                    &&& command_check(old(self).sockets(), id) == Err::<(), CommandError>(e)
                    &&& final(self).sockets() == old(self).sockets()
                    &&& final(self).outbox() == old(self).outbox()
                },
            },
    {
        let ghost pre = self.sockets@;
        let i = match self.find_id(id) {
            None => return Err(CommandError::UnknownConnection),
            Some(i) => i,
        };
        proof { lemma_index_unique(pre, self.next_id, self.max_flows, i as int); }
        let s = self.sockets[i];
        if s.state != TcpState::Established {
            return Err(CommandError::NotEstablished);
        }
        let len = data.len();
        self.append_outbox(id, &data);
        let ghost ob1 = self.outbox@;
        proof {
            assert forall|c: u64|
                #[trigger] pending_in(ob1, c) == if c == id {
                    old(self).pending(c) + data@
                } else {
                    old(self).pending(c)
                } by {
                assert(pending_in(ob1, c) == self.pending(c));
            }
        }
        let mut segs: Vec<Packet> = Vec::new();
        let mut off: usize = 0;
        let mut seq: u32 = s.snd_nxt;
        let ghost mut k: int = 0;
        while off < len
            invariant
                len == data@.len(),
                same_family(s.local.addr, s.remote.addr),
                off <= len,
                off < len ==> off == k * MSS,
                off <= k * MSS,
                k == segs@.len(),
                seq == seq_add(s.snd_nxt, off as int),
                payloads(packet_views(segs@)) == data@.subrange(0, off as int),
                forall|j: int|
                    0 <= j < segs@.len() ==> j * MSS < data@.len() && (#[trigger] segs@[j])@ == segment_view(
                        s.local,
                        s.remote,
                        seq_add(s.snd_nxt, j * MSS),
                        s.rcv_nxt,
                        PSH_ACK,
                        chunk(data@, j),
                    ) && segs@[j]@.wf(),
            decreases len - off,
        {
            let n: usize = if len - off < MSS { len - off } else { MSS };
            let mut piece: Vec<u8> = Vec::new();
            let mut j: usize = off;
            while j < off + n
                invariant
                    off + n <= len == data@.len(),
                    off <= j <= off + n,
                    piece@ == data@.subrange(off as int, j as int),
                decreases off + n - j,
            {
                piece.push(data[j]);
                j = j + 1;
                assert(piece@ =~= data@.subrange(off as int, j as int));
            }
            let ghost before = packet_views(segs@);
            segs.push(segment(s.local, s.remote, seq, s.rcv_nxt, PSH_ACK, piece));
            proof {
                assert(packet_views(segs@).drop_last() =~= before);
                assert(data@.subrange(0, (off + n) as int) =~= data@.subrange(0, off as int) + data@.subrange(
                    off as int,
                    (off + n) as int,
                ));
                assert(chunk(data@, k) == data@.subrange(off as int, (off + n) as int));
                lemma_seq_add_assoc(s.snd_nxt, off as int, n as int);
            }
            seq = seq_plus(seq, n as u32);
            off = off + n;
            proof { k = k + 1; }
        }
        proof {
            assert(data@.subrange(0, len as int) =~= data@);
        }
        let arm = s.snd_una == s.snd_nxt && len > 0;
        let s2 = Socket {
            snd_nxt: seq,
            deadline: if arm { next_deadline_for(self.clock, 0) } else { s.deadline },
            retries: if arm { 0 } else { s.retries },
            ..s
        };
        proof { lemma_live_update(pre, self.next_id, self.max_flows, i as int, s2); }
        self.sockets.set(i, s2);
        proof {
            assert(self.outbox@ == ob1);
            assert forall|c: u64| #[trigger] self.pending(c) == pending_in(ob1, c) by {}
        }
        Ok(segs)
    }

    /// Closes an established connection: sends FIN and waits for the peer's
    /// FIN, on which the close is reported.
    pub fn close_connection(&mut self, id: u64) -> (r: Result<Packet, CommandError>)
        requires
            old(self).wf(),
        ensures
            final(self).wf(),
            final(self).max_flows() == old(self).max_flows(),
            final(self).clock() == old(self).clock(),
            final(self).next_id() == old(self).next_id(),
            final(self).outbox() == old(self).outbox(),
            step_ok(old(self).sockets(), old(self).next_id(), final(self).sockets(), final(self).next_id(), Seq::empty()),
            match r {
                Ok(pk) => {
                    let i = index_of(old(self).sockets(), id);
                    let s = old(self).sockets()[i];
                    &&& command_check(old(self).sockets(), id) is Ok
                    &&& pk@ == segment_view(s.local, s.remote, s.snd_nxt, s.rcv_nxt, FIN_ACK, Seq::empty())
                    &&& pk@.wf()
                    &&& final(self).sockets() == old(self).sockets().update(
                        i,
                        Socket {
                            state: TcpState::FinWait,
                            snd_nxt: seq_add(s.snd_nxt, 1),
                            deadline: deadline_after(old(self).clock(), 0),
                            retries: 0,
                            ..s
                        },
                    )
                },
                Err(e) => {
                    &&& command_check(old(self).sockets(), id) == Err::<(), CommandError>(e)
                    &&& final(self).sockets() == old(self).sockets()
                },
            },
    {
        let ghost pre = self.sockets@;
        let i = match self.find_id(id) {
            None => return Err(CommandError::UnknownConnection),
            Some(i) => i,
        };
        proof { lemma_index_unique(pre, self.next_id, self.max_flows, i as int); }
        let s = self.sockets[i];
        if s.state != TcpState::Established {
            return Err(CommandError::NotEstablished);
        }
        let s2 = Socket {
            state: TcpState::FinWait,
            snd_nxt: seq_plus(s.snd_nxt, 1),
            deadline: next_deadline_for(self.clock, 0),
            retries: 0,
            ..s
        };
        proof { lemma_live_update(pre, self.next_id, self.max_flows, i as int, s2); }
        self.sockets.set(i, s2);
        Ok(segment(s.local, s.remote, s.snd_nxt, s.rcv_nxt, FIN_ACK, Vec::new()))
    }
}

/// A datagram from `src` to `dst`; UDP keeps no state.
pub fn send_datagram(src: Endpoint, dst: Endpoint, data: Vec<u8>) -> (r: Result<Packet, CommandError>)
    ensures
        match r {
            Ok(pk) => same_family(src.addr, dst.addr) && data@.len() <= max_datagram(src.addr) && pk@ == (PacketView {
                src,
                dst,
                transport: Transport::Udp,
                payload: data@,
            }) && pk@.wf(),
            Err(e) => if !same_family(src.addr, dst.addr) {
                e == CommandError::FamilyMismatch
            } else {
                data@.len() > max_datagram(src.addr) && e == CommandError::PayloadTooLarge
            },
        },
{
    let same = match (src.addr, dst.addr) {
        (IpAddr::V4(_), IpAddr::V4(_)) => true,
        (IpAddr::V6(_), IpAddr::V6(_)) => true,
        _ => false,
    };
    if !same {
        return Err(CommandError::FamilyMismatch);
    }
    let limit = match src.addr {
        IpAddr::V4(_) => MAX_DATAGRAM,
        IpAddr::V6(_) => MAX_DATAGRAM6,
    };
    if data.len() > limit {
        return Err(CommandError::PayloadTooLarge);
    }
    Ok(Packet { src, dst, transport: Transport::Udp, payload: data })
}

/// The flow waits on its peer (for the ACK of its SYN/ACK, or for the FIN
/// after its own) and its timer has run out.
pub open spec fn due(s: Socket, now: u64) -> bool {
    s.snd_una != s.snd_nxt && s.deadline <= now
}

/// Due, with no retry left: the flow is closed.
pub open spec fn expired(s: Socket, now: u64) -> bool {
    due(s, now) && s.retries >= MAX_RETRIES
}

/// The flow after a retry at `now`.
pub open spec fn retried(s: Socket, now: u64) -> Socket {
    Socket { retries: (s.retries + 1) as u32, deadline: deadline_after(now, (s.retries + 1) as u32), ..s }
}

/// The flow after a poll at `now` that did not close it.
pub open spec fn polled(s: Socket, now: u64) -> Socket {
    if due(s, now) {
        retried(s, now)
    } else {
        s
    }
}

/// The segment sent again: the SYN/ACK; else the oldest unacknowledged data
/// `q`, one segment's worth from `snd_una`; else the FIN, whose sequence
/// number is one before `snd_nxt`.
pub open spec fn resend_of(s: Socket, q: Seq<u8>) -> PacketView {
    if s.state == TcpState::SynReceived {
        segment_view(s.local, s.remote, seq_add(s.snd_nxt, 0xffff_ffff), s.rcv_nxt, SYN_ACK, Seq::empty())
    } else if q.len() > 0 {
        segment_view(s.local, s.remote, s.snd_una, s.rcv_nxt, PSH_ACK, first_chunk(q))
    } else {
        segment_view(s.local, s.remote, seq_add(s.snd_nxt, 0xffff_ffff), s.rcv_nxt, FIN_ACK, Seq::empty())
    }
}

/// `p` is the segment that a flow of `pre`, due and not expired at `now`,
/// sends again.
pub open spec fn is_resend(pre: Seq<Socket>, ob: Map<u64, Vec<u8>>, now: u64, p: PacketView) -> bool {
    exists|c: u64|
        live(pre, c) && due(socket_of(pre, c), now) && !expired(socket_of(pre, c), now) && p == resend_of(
            socket_of(pre, c),
            pending_in(ob, c),
        )
}

/// Some packet of `out` is the segment that `s` sends again.
pub open spec fn resent_in(out: Seq<Packet>, s: Socket, q: Seq<u8>) -> bool {
    exists|k: int| 0 <= k < out.len() && (#[trigger] out[k])@ == resend_of(s, q)
}

/// Some event of `evs` closes `c` for `reason`.
pub open spec fn closed_in(evs: Seq<EventView>, c: u64, reason: CloseReason) -> bool {
    exists|k: int|
        0 <= k < evs.len() && #[trigger] evs[k] == (EventView::ConnectionClosed { id: c, reason })
}

pub open spec fn socket_of(s: Seq<Socket>, id: u64) -> Socket {
    s[index_of(s, id)]
}

impl Engine {
    /// Advances the engine's clock to `now` (it never goes back) and runs the
    /// timers: a flow whose timer ran out sends its SYN/ACK or FIN again and
    /// waits twice as long, and is closed with `Timeout` once its retries are
    /// spent.
    /// The segment that `s` sends again, by `resend_of`.
    fn resend(&self, s: Socket) -> (r: Packet)
        requires
            same_family(s.local.addr, s.remote.addr),
        ensures
            r@ == resend_of(s, pending_in(self.outbox@, s.id)),
            r@.wf(),
    {
        if s.state == TcpState::SynReceived {
            return segment(s.local, s.remote, seq_plus(s.snd_nxt, 0xffff_ffff), s.rcv_nxt, SYN_ACK, Vec::new());
        }
        match self.outbox.get(&s.id) {
            Some(q) if q.len() > 0 => {
                let n = if q.len() < MSS { q.len() } else { MSS };
                let mut piece: Vec<u8> = Vec::new();
                let mut j: usize = 0;
                while j < n
                    invariant
                        n <= q@.len(),
                        j <= n,
                        piece@ == q@.subrange(0, j as int),
                    decreases n - j,
                {
                    piece.push(q[j]);
                    j = j + 1;
                    assert(piece@ =~= q@.subrange(0, j as int));
                }
                segment(s.local, s.remote, s.snd_una, s.rcv_nxt, PSH_ACK, piece)
            },
            _ => segment(s.local, s.remote, seq_plus(s.snd_nxt, 0xffff_ffff), s.rcv_nxt, FIN_ACK, Vec::new()),
        }
    }

    #[verifier::rlimit(100)]
    pub fn poll(&mut self, now: u64) -> (r: (Vec<Packet>, Vec<Event>))
        requires
            old(self).wf(),
        ensures
            final(self).wf(),
            final(self).max_flows() == old(self).max_flows(),
            final(self).next_id() == old(self).next_id(),
            final(self).outbox() == old(self).outbox(),
            final(self).clock() == if now > old(self).clock() { now } else { old(self).clock() },
            step_ok(old(self).sockets(), old(self).next_id(), final(self).sockets(), final(self).next_id(), views(r.1@)),
            forall|c: u64|
                #[trigger] live(final(self).sockets(), c) <==> live(old(self).sockets(), c) && !expired(
                    socket_of(old(self).sockets(), c),
                    final(self).clock(),
                ),
            forall|j: int|
                0 <= j < final(self).sockets().len() ==> #[trigger] final(self).sockets()[j] == polled(
                    socket_of(old(self).sockets(), final(self).sockets()[j].id),
                    final(self).clock(),
                ),
            forall|k: int|
                0 <= k < r.1@.len() ==> {
                    let e = #[trigger] views(r.1@)[k];
                    &&& e is ConnectionClosed
                    &&& e->ConnectionClosed_reason == CloseReason::Timeout
                    &&& live(old(self).sockets(), e->ConnectionClosed_id)
                    &&& socket_of(old(self).sockets(), e->ConnectionClosed_id).state != TcpState::SynReceived
                },
            forall|c: u64|
                #[trigger] live(old(self).sockets(), c) && expired(socket_of(old(self).sockets(), c), final(self).clock())
                    && socket_of(old(self).sockets(), c).state != TcpState::SynReceived ==> closed_in(
                    views(r.1@),
                    c,
                    CloseReason::Timeout,
                ),
            forall|k: int|
                0 <= k < r.0@.len() ==> is_resend(old(self).sockets(), old(self).outbox(), final(self).clock(), (#[trigger] r.0@[k])@),
            forall|c: u64|
                #[trigger] live(old(self).sockets(), c) && due(socket_of(old(self).sockets(), c), final(self).clock())
                    && !expired(socket_of(old(self).sockets(), c), final(self).clock()) ==> resent_in(
                    r.0@,
                    socket_of(old(self).sockets(), c),
                    old(self).pending(c),
                ),
            forall|k: int| 0 <= k < r.0@.len() ==> (#[trigger] r.0@[k])@.wf(),
    {
        if now > self.clock {
            self.clock = now;
        }
        let now = self.clock;
        let ghost pre = self.sockets@;
        let ghost next = self.next_id;
        let ghost max = self.max_flows;
        let ghost ob = self.outbox@;
        let mut out: Vec<Packet> = Vec::new();
        let mut evs: Vec<Event> = Vec::new();
        let mut i: usize = 0;
        while i < self.sockets.len()
            invariant
                self.next_id == next,
                self.max_flows == max,
                self.clock == now,
                self.outbox@ == ob,
                ob == old(self).outbox(),
                registry_wf(pre, next, max),
                registry_wf(self.sockets@, next, max),
                i <= self.sockets@.len(),
                forall|j: int| 0 <= j < self.sockets@.len() ==> live(pre, #[trigger] self.sockets@[j].id),
                forall|j: int|
                    i <= j < self.sockets@.len() ==> #[trigger] self.sockets@[j] == socket_of(pre, self.sockets@[j].id),
                forall|j: int|
                    0 <= j < i ==> #[trigger] self.sockets@[j] == polled(socket_of(pre, self.sockets@[j].id), now)
                        && !expired(socket_of(pre, self.sockets@[j].id), now),
                forall|c: u64| #[trigger] live(self.sockets@, c) ==> live(pre, c),
                forall|c: u64|
                    live(pre, c) && !live(self.sockets@, c) ==> #[trigger] expired(socket_of(pre, c), now),
                forall|k: int|
                    0 <= k < evs@.len() ==> {
                        let e = #[trigger] views(evs@)[k];
                        &&& e is ConnectionClosed
                        &&& e->ConnectionClosed_reason == CloseReason::Timeout
                        &&& live(pre, e->ConnectionClosed_id)
                        &&& !live(self.sockets@, e->ConnectionClosed_id)
                        &&& socket_of(pre, e->ConnectionClosed_id).state != TcpState::SynReceived
                    },
                forall|c: u64|
                    #[trigger] live(pre, c) && !live(self.sockets@, c) && socket_of(pre, c).state != TcpState::SynReceived
                        ==> closed_in(views(evs@), c, CloseReason::Timeout),
                forall|k1: int, k2: int|
                    0 <= k1 < k2 < evs@.len() ==> (#[trigger] views(evs@)[k1]).conn() != (
                    #[trigger] views(evs@)[k2]).conn(),
                forall|k: int| 0 <= k < out@.len() ==> is_resend(pre, ob, now, (#[trigger] out@[k])@),
                forall|j: int|
                    0 <= j < i && due(socket_of(pre, self.sockets@[j].id), now) ==> resent_in(
                        out@,
                        socket_of(pre, #[trigger] self.sockets@[j].id),
                        pending_in(ob, self.sockets@[j].id),
                    ),
                forall|k: int| 0 <= k < out@.len() ==> (#[trigger] out@[k])@.wf(),
            decreases self.sockets@.len() - i,
        {
            let s = self.sockets[i];
            let ghost cur = self.sockets@;
            proof {
                lemma_index_unique(cur, next, max, i as int);
            }
            if s.snd_una != s.snd_nxt && s.deadline <= now {
                if s.retries >= MAX_RETRIES {
                    proof { lemma_live_remove(cur, next, max, i as int); }
                    self.sockets.remove(i);
                    let ghost before = views(evs@);
                    if s.state != TcpState::SynReceived {
                        evs.push(Event::ConnectionClosed { id: s.id, reason: CloseReason::Timeout });
                    }
                    proof {
                        let closed = EventView::ConnectionClosed { id: s.id, reason: CloseReason::Timeout };
                        if s.state != TcpState::SynReceived {
                            assert(views(evs@) =~= before.push(closed));
                            assert(views(evs@)[before.len() as int] == closed);
                            assert forall|c: u64| closed_in(before, c, CloseReason::Timeout) implies closed_in(
                                views(evs@),
                                c,
                                CloseReason::Timeout,
                            ) by {
                                let k = choose|k: int| 0 <= k < before.len() && #[trigger] before[k]
                                    == EventView::ConnectionClosed { id: c, reason: CloseReason::Timeout };
                                assert(views(evs@)[k] == before[k]);
                            }
                        }
                        assert(socket_of(pre, s.id) == s);
                        assert forall|j: int| 0 <= j < self.sockets@.len() implies live(pre, #[trigger] self.sockets@[j].id) by {
                            let j2 = if j < i { j } else { j + 1 };
                            assert(self.sockets@[j] == cur[j2]);
                        }
                    }
                } else {
                    let ghost before = out@;
                    out.push(self.resend(s));
                    proof {
                        assert(socket_of(pre, s.id) == s);
                        assert(live(pre, s.id));
                        assert(out@[out@.len() - 1]@ == resend_of(s, pending_in(ob, s.id)));
                        assert forall|j: int|
                            0 <= j < i && due(socket_of(pre, cur[j].id), now) implies resent_in(
                            out@,
                            socket_of(pre, #[trigger] cur[j].id),
                            pending_in(ob, cur[j].id),
                        ) by {
                            let k = choose|k: int| 0 <= k < before.len() && (#[trigger] before[k])@ == resend_of(socket_of(pre, cur[j].id), pending_in(ob, cur[j].id));
                            assert(out@[k] == before[k]);
                        }
                        assert forall|k: int| 0 <= k < out@.len() implies is_resend(pre, ob, now, (#[trigger] out@[k])@) by {
                            if k == out@.len() - 1 {
                                assert(out@[k]@ == resend_of(socket_of(pre, s.id), pending_in(ob, s.id)));
                            } else {
                                assert(out@[k] == before[k]);
                            }
                        }
                    }
                    let s2 = Socket { retries: s.retries + 1, deadline: next_deadline_for(now, s.retries + 1), ..s };
                    proof { lemma_live_update(cur, next, max, i as int, s2); }
                    self.sockets.set(i, s2);
                    i = i + 1;
                }
            } else {
                i = i + 1;
            }
        }
        proof {
            assert(pre == old(self).sockets());
            assert(now == self.clock());
            assert forall|c: u64|
                #[trigger] live(pre, c) && due(socket_of(pre, c), now) && !expired(socket_of(pre, c), now)
                    implies resent_in(out@, socket_of(pre, c), pending_in(ob, c)) by {
                assert(live(self.sockets@, c));
                let j = choose|j: int| 0 <= j < self.sockets@.len() && (#[trigger] self.sockets@[j]).id == c;
                assert(self.sockets@[j].id == c);
            }
        }
        (out, evs)
    }

    /// The soonest time at which `poll` has work: the earliest deadline of a
    /// flow with something unacknowledged, if any.
    pub fn next_deadline(&self) -> (r: Option<u64>)
        ensures
            r is None <==> forall|j: int|
                0 <= j < self.sockets().len() ==> (#[trigger] self.sockets()[j]).snd_una == self.sockets()[j].snd_nxt,
            r matches Some(d) ==> (exists|j: int|
                0 <= j < self.sockets().len() && (#[trigger] self.sockets()[j]).snd_una != self.sockets()[j].snd_nxt
                    && self.sockets()[j].deadline == d) && (forall|j: int|
                0 <= j < self.sockets().len() && (#[trigger] self.sockets()[j]).snd_una != self.sockets()[j].snd_nxt
                    ==> d <= self.sockets()[j].deadline),
    {
        let mut best: Option<u64> = None;
        let mut i: usize = 0;
        while i < self.sockets.len()
            invariant
                i <= self.sockets@.len(),
                best is None <==> forall|j: int|
                    0 <= j < i ==> (#[trigger] self.sockets@[j]).snd_una == self.sockets@[j].snd_nxt,
                best matches Some(d) ==> (exists|j: int|
                    0 <= j < i && (#[trigger] self.sockets@[j]).snd_una != self.sockets@[j].snd_nxt
                        && self.sockets@[j].deadline == d) && (forall|j: int|
                    0 <= j < i && (#[trigger] self.sockets@[j]).snd_una != self.sockets@[j].snd_nxt ==> d
                        <= self.sockets@[j].deadline),
            decreases self.sockets@.len() - i,
        {
            let s = self.sockets[i];
            if s.snd_una != s.snd_nxt {
                best = match best {
                    Some(d) => if s.deadline < d { Some(s.deadline) } else { Some(d) },
                    None => Some(s.deadline),
                };
            }
            i = i + 1;
        }
        best
    }
}

} // verus!
