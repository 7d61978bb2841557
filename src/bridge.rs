//! Decisions of the loop that bridges the tunnel and the application: the
//! loop itself, with its channels and timers, runs outside the library and
//! asks `next_action` what to do each time it wakes.
use vstd::prelude::*;

verus! {

/// The four channels at the loop's boundaries.
#[derive(Clone, Copy, Debug, PartialEq, Eq, Structural)]
pub enum Boundary {
    /// Raw packets from the tunnel.
    TunnelIn,
    /// Raw packets to the tunnel.
    TunnelOut,
    /// Commands from the application.
    CommandsIn,
    /// Events to the application.
    EventsOut,
}

/// Why the loop woke up.
#[derive(Clone, Copy, Debug, PartialEq, Eq, Structural)]
pub enum Wake {
    Shutdown,
    PacketArrived,
    CommandArrived,
    TimerElapsed,
    /// Every peer of one channel has gone.
    ChannelClosed(Boundary),
}

#[derive(Clone, Copy, Debug, PartialEq, Eq, Structural)]
pub enum Action {
    /// Hand the received packet to the engine.
    FeedPacket,
    /// Hand the received command to the engine.
    FeedCommand,
    /// Publish what the engine produced, then wait again.
    Flush,
    /// Publish what is still pending, then stop with success.
    FlushAndStop,
    /// Stop with success.
    Stop,
    /// Stop and report the channel that closed.
    Fail(Boundary),
}

/// Whether the loop has seen the shutdown signal, and how much output it
/// holds that has not been published yet.
#[derive(Clone, Copy, Debug, PartialEq, Eq, Structural)]
pub struct LoopState {
    pub stopping: bool,
    pub pending: usize,
}

/// What the loop does when it wakes for `w` in state `s`. Once the shutdown
/// signal is seen, inputs are no longer taken: the loop publishes what it
/// holds and stops with success. A closed channel always stops the loop with
/// that channel as the error.
pub fn next_action(s: LoopState, w: Wake) -> (r: Action)
    ensures
        w == Wake::Shutdown && s.pending == 0 ==> r == Action::Stop,
        (w is ChannelClosed) ==> r == Action::Fail(w->ChannelClosed_0),
        !(w is ChannelClosed) && (s.stopping || w == Wake::Shutdown) ==> r == (if s.pending == 0 {
            Action::Stop
        } else {
            Action::FlushAndStop
        }),
        !(w is ChannelClosed) && !s.stopping && w != Wake::Shutdown ==> r == match w {
            Wake::PacketArrived => Action::FeedPacket,
            Wake::CommandArrived => Action::FeedCommand,
            _ => Action::Flush,
        },
{
    match w {
        Wake::ChannelClosed(b) => Action::Fail(b),
        _ => {
            if s.stopping || w == Wake::Shutdown {
                if s.pending == 0 {
                    Action::Stop
                } else {
                    Action::FlushAndStop
                }
            } else {
                match w {
                    Wake::PacketArrived => Action::FeedPacket,
                    Wake::CommandArrived => Action::FeedCommand,
                    _ => Action::Flush,
                }
            }
        },
    }
}

/// The state after the loop has acted on `w`: the signal is remembered, and
/// the count of pending output is what the caller reports after acting.
pub fn after_wake(s: LoopState, w: Wake, pending: usize) -> (r: LoopState)
    ensures
        r.stopping == (s.stopping || w == Wake::Shutdown),
        r.pending == pending,
{
    LoopState { stopping: s.stopping || w == Wake::Shutdown, pending }
}

} // verus!
