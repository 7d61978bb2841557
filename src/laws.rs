//! Properties of the engine over several steps.
use vstd::prelude::*;
use crate::engine::{
    live, has_flow, flow_at, lemma_flow_unique, registry_wf, step_ok, tcp_outcome, seq_add, segment_view, EventView,
    Socket, TcpState,
};
use crate::codec::{decode, encode, lemma_parse_emit};
use crate::engine::{packet_outcome, Engine};
use crate::packet::{PacketView, TcpHeader, Transport, ACK, SYN, SYN_ACK};

verus! {

/// Handshake: a SYN with sequence number S for a new flow, with room in the
/// registry, is answered by one SYN/ACK acknowledging S + 1; the peer's ACK
/// with sequence number S + 1 that acknowledges the engine's initial sequence
/// number plus one then yields, as its first event, the only
/// `ConnectionEstablished` of that step, for the new identifier, from the
/// SYN's source to its destination.
pub proof fn lemma_handshake(
    pre: Seq<Socket>,
    next: u64,
    max: usize,
    clock: u64,
    clock2: u64,
    inbox: Map<u64, Vec<Option<u8>>>,
    inbox2: Map<u64, Vec<Option<u8>>>,
    syn: PacketView,
    h1: TcpHeader,
    isn: u32,
    mid: Seq<Socket>,
    mid_next: u64,
    out1: Seq<PacketView>,
    evs1: Seq<EventView>,
    ack: PacketView,
    h2: TcpHeader,
    isn2: u32,
    post: Seq<Socket>,
    post_next: u64,
    out2: Seq<PacketView>,
    evs2: Seq<EventView>,
)
    requires
        registry_wf(pre, next, max),
        pre.len() < max,
        next < u64::MAX,
        !has_flow(pre, syn.dst, syn.src),
        h1.flags == SYN,
        tcp_outcome(pre, next, max, clock, inbox, syn, h1, isn, mid, mid_next, out1, evs1),
        registry_wf(mid, mid_next, max),
        ack.src == syn.src,
        ack.dst == syn.dst,
        h2.flags == ACK,
        h2.seq == seq_add(h1.seq, 1),
        h2.ack == seq_add(isn, 1),
        tcp_outcome(mid, mid_next, max, clock2, inbox2, ack, h2, isn2, post, post_next, out2, evs2),
    ensures
        evs1.len() == 0,
        out1 == seq![segment_view(syn.dst, syn.src, isn, seq_add(h1.seq, 1), SYN_ACK, Seq::empty())],
        evs2.len() >= 1,
        evs2[0] == (EventView::ConnectionEstablished { id: next, src: syn.src, dst: syn.dst }),
        forall|k: int| 1 <= k < evs2.len() ==> !(#[trigger] evs2[k] is ConnectionEstablished),
        live(post, next),
{
    assert(SYN & SYN != 0 && SYN & ACK == 0 && SYN & 0x04u8 == 0) by (bit_vector);
    assert(ACK & ACK != 0 && ACK & SYN == 0 && ACK & 0x04u8 == 0 && ACK & 0x01u8 == 0) by (bit_vector);
    let i = pre.len() as int;
    assert(mid[i].local == syn.dst && mid[i].remote == syn.src);
    assert(flow_at(mid, i, ack.dst, ack.src));
    lemma_flow_unique(mid, mid_next, max, i, ack.dst, ack.src);
    let s = mid[i];
    assert(s.state == TcpState::SynReceived);
    assert(post[i].id == next);
}

/// The steps `evs[t]` lead from `states[t]` to `states[t + 1]`, each as
/// `step_ok` states, starting from a well-formed registry.
pub open spec fn run_ok(states: Seq<Seq<Socket>>, nexts: Seq<u64>, max: usize, evs: Seq<Seq<EventView>>) -> bool {
    &&& states.len() == evs.len() + 1
    &&& nexts.len() == states.len()
    &&& registry_wf(states[0], nexts[0], max)
    &&& forall|t: int|
        0 <= t < evs.len() ==> #[trigger] step_ok(states[t], nexts[t], states[t + 1], nexts[t + 1], evs[t])
}

proof fn lemma_ids_below(states: Seq<Seq<Socket>>, nexts: Seq<u64>, max: usize, evs: Seq<Seq<EventView>>, t: int)
    requires
        run_ok(states, nexts, max, evs),
        0 <= t < states.len(),
    ensures
        forall|c: u64| #[trigger] live(states[t], c) ==> c < nexts[t],
    decreases t,
{
    if t == 0 {
        assert forall|c: u64| #[trigger] live(states[0], c) implies c < nexts[0] by {
            let i = choose|i: int| 0 <= i < states[0].len() && (#[trigger] states[0][i]).id == c;
        }
    } else {
        lemma_ids_below(states, nexts, max, evs, t - 1);
        let u = t - 1;
        assert(step_ok(states[u], nexts[u], states[u + 1], nexts[u + 1], evs[u]));
    }
}

proof fn lemma_stays_gone(
    states: Seq<Seq<Socket>>,
    nexts: Seq<u64>,
    max: usize,
    evs: Seq<Seq<EventView>>,
    a: int,
    c: u64,
    t: int,
)
    requires
        run_ok(states, nexts, max, evs),
        0 <= a < evs.len(),
        a < t < states.len(),
        !live(states[a + 1], c),
        c < nexts[a + 1],
    ensures
        !live(states[t], c),
        c < nexts[t],
    decreases t,
{
    if t > a + 1 {
        lemma_stays_gone(states, nexts, max, evs, a, c, t - 1);
        let u = t - 1;
        assert(step_ok(states[u], nexts[u], states[u + 1], nexts[u + 1], evs[u]));
    }
}

/// No event after close: once a step reports `ConnectionClosed` for a
/// connection, no event of any later step names that connection.
pub proof fn lemma_no_event_after_close(
    states: Seq<Seq<Socket>>,
    nexts: Seq<u64>,
    max: usize,
    evs: Seq<Seq<EventView>>,
    a: int,
    k: int,
    b: int,
    j: int,
)
    requires
        run_ok(states, nexts, max, evs),
        0 <= a < b < evs.len(),
        0 <= k < evs[a].len(),
        evs[a][k] is ConnectionClosed,
        0 <= j < evs[b].len(),
    ensures
        evs[b][j].conn() != evs[a][k].conn(),
{
    let c = evs[a][k].conn()->0;
    assert(step_ok(states[a], nexts[a], states[a + 1], nexts[a + 1], evs[a]));
    lemma_ids_below(states, nexts, max, evs, a);
    lemma_stays_gone(states, nexts, max, evs, a, c, b);
    lemma_stays_gone(states, nexts, max, evs, a, c, b + 1);
    assert(step_ok(states[b], nexts[b], states[b + 1], nexts[b + 1], evs[b]));
    if evs[b][j].conn() == Some(c) {
        assert(evs[b][j].conn() is Some);
    }
}

/// At most one close: two `ConnectionClosed` events of a run that name the
/// same connection are one and the same event.
pub proof fn lemma_close_at_most_once(
    states: Seq<Seq<Socket>>,
    nexts: Seq<u64>,
    max: usize,
    evs: Seq<Seq<EventView>>,
    a: int,
    k: int,
    b: int,
    j: int,
)
    requires
        run_ok(states, nexts, max, evs),
        0 <= a < evs.len(),
        0 <= b < evs.len(),
        0 <= k < evs[a].len(),
        0 <= j < evs[b].len(),
        evs[a][k] is ConnectionClosed,
        evs[b][j] is ConnectionClosed,
        evs[a][k].conn() == evs[b][j].conn(),
    ensures
        a == b && k == j,
{
    if a < b {
        lemma_no_event_after_close(states, nexts, max, evs, a, k, b, j);
    } else if b < a {
        lemma_no_event_after_close(states, nexts, max, evs, b, j, a, k);
    } else {
        assert(step_ok(states[a], nexts[a], states[a + 1], nexts[a + 1], evs[a]));
        if j > k {
            assert(evs[a][j].conn() != Some(evs[a][k].conn()->0));
        } else if j < k {
            assert(evs[a][k].conn() != Some(evs[a][j].conn()->0));
        }
    }
}

/// UDP demultiplexing: an IPv4 datagram from `p.src` to `p.dst`, put on the wire
/// and handled by an engine in any state, whatever TCP flows it holds, is
/// reported once with exactly that source, destination and payload, and
/// leaves the flows as they were.
pub proof fn lemma_datagram_demux(
    p: PacketView,
    pre: Engine,
    post: Engine,
    isn: u32,
    out: Seq<PacketView>,
    evs: Seq<EventView>,
)
    requires
        p.wf(),
        p.transport == Transport::Udp,
        p.src.addr is V4,
        packet_outcome(pre, post, decode(encode(p)), isn, out, evs),
    ensures
        evs == seq![EventView::DatagramReceived { src: p.src, dst: p.dst, data: p.payload }],
        out.len() == 0,
        post.sockets() == pre.sockets(),
{
    lemma_parse_emit(p);
}

} // verus!
