//! The accept/merge loop's state machine: new-connection events and
//! shutdown-request events arrive as one ordered merged sequence, and the
//! loop runs until the first shutdown request or fatal listener error.
//!
//! The loop itself — the reactor, the listener, the channel — lives outside
//! the library; it feeds each merged event to [`AcceptLoop::on_event`] and
//! performs the returned action.

use vstd::prelude::*;

verus! {

/// A zero-payload token: its only content is "a shutdown was requested",
/// with no ordering or authority distinctions between requesters.
pub struct ShutdownRequest;

/// One step of the merged event intake that drives the loop.
#[derive(Clone, Copy, Debug, PartialEq, Eq, Structural)]
pub enum MergeEvent {
    /// The listener accepted a new connection.
    Connection,
    /// A connection handler pushed a `ShutdownRequest` into the channel.
    Shutdown,
    /// Both sources were ready in the same merge step.
    Both,
    /// The listener itself failed: an unrecoverable accept error.
    AcceptError,
}

/// Why the loop stopped. A graceful shutdown is reported distinctly from an
/// unrecoverable listener error, though both end the loop the same way.
#[derive(Clone, Copy, Debug, PartialEq, Eq, Structural)]
pub enum StopReason {
    /// A client requested termination with the reserved literal.
    ShutdownRequested,
    /// The listener failed; not retried.
    ListenerFailed,
}

/// The loop's control state: `Running` initially, `Stopped` terminally.
#[derive(Clone, Copy, Debug, PartialEq, Eq, Structural)]
pub enum ServerState {
    Running,
    Stopped(StopReason),
}

/// What the loop's driver must do after one event.
#[derive(Clone, Copy, Debug, PartialEq, Eq, Structural)]
pub enum LoopAction {
    /// Launch an independent handler task for the accepted connection and
    /// return to merging events without waiting for it.
    Spawn,
    /// Stop accepting connections and stop observing events, for the given
    /// reason. Handlers already spawned are not cancelled.
    Stop(StopReason),
    /// Do nothing: the event arrived after the loop stopped.
    Ignore,
}

/// The transition relation. `Stopped` is terminal; while `Running`, a
/// shutdown request or an accept error stops the loop, and a merge step in
/// which a connection and a shutdown request are both ready stops it too
/// (last event wins toward termination: the connection is never accepted).
pub open spec fn spec_step(s: ServerState, e: MergeEvent) -> ServerState {
    match s {
        ServerState::Stopped(_) => s,
        ServerState::Running => match e {
            MergeEvent::Connection => ServerState::Running,
            MergeEvent::Shutdown => ServerState::Stopped(StopReason::ShutdownRequested),
            MergeEvent::Both => ServerState::Stopped(StopReason::ShutdownRequested),
            MergeEvent::AcceptError => ServerState::Stopped(StopReason::ListenerFailed),
        },
    }
}

/// The action owed for one event: spawn a handler for a connection accepted
/// while running, stop on a shutdown request or accept error (without
/// spawning, when both were ready at once), ignore everything after a stop.
pub open spec fn spec_action(s: ServerState, e: MergeEvent) -> LoopAction {
    match s {
        ServerState::Stopped(_) => LoopAction::Ignore,
        ServerState::Running => match e {
            MergeEvent::Connection => LoopAction::Spawn,
            MergeEvent::Shutdown => LoopAction::Stop(StopReason::ShutdownRequested),
            MergeEvent::Both => LoopAction::Stop(StopReason::ShutdownRequested),
            MergeEvent::AcceptError => LoopAction::Stop(StopReason::ListenerFailed),
        },
    }
}

/// The state after processing `events` in order, starting from `s`.
pub open spec fn spec_run(s: ServerState, events: Seq<MergeEvent>) -> ServerState
    decreases events.len(),
{
    if events.len() == 0 {
        s
    } else {
        spec_run(spec_step(s, events[0]), events.drop_first())
    }
}

/// Once stopped, the loop stays stopped whatever else arrives.
pub proof fn lemma_stopped_is_terminal(s: ServerState, events: Seq<MergeEvent>)
    requires
        s is Stopped,
    ensures
        spec_run(s, events) == s,
    decreases events.len(),
{
    if events.len() > 0 {
        lemma_stopped_is_terminal(s, events.drop_first());
    }
}

/// After the loop has stopped, no later event — in particular no connection
/// attempt — is ever answered with a spawned handler; every one is ignored.
pub proof fn lemma_no_spawn_after_stop(s: ServerState, events: Seq<MergeEvent>, i: int)
    requires
        s is Stopped,
        0 <= i < events.len(),
    ensures
        spec_action(spec_run(s, events.take(i)), events[i]) is Ignore,
{
    lemma_stopped_is_terminal(s, events.take(i));
}

/// The accept/merge loop's control state, advanced one merged event at a
/// time by the driver that owns the listener and the channel.
pub struct AcceptLoop {
    state: ServerState,
}

impl View for AcceptLoop {
    type V = ServerState;

    closed spec fn view(&self) -> ServerState {
        self.state
    }
}

impl AcceptLoop {
    /// A fresh loop, accepting connections.
    pub fn new() -> (r: AcceptLoop)
        ensures
            r@ == ServerState::Running,
    {
        AcceptLoop { state: ServerState::Running }
    }

    /// Whether the loop still accepts connections and observes events.
    pub fn is_running(&self) -> (r: bool)
        ensures
            r == (self@ is Running),
    {
        match self.state {
            ServerState::Running => true,
            ServerState::Stopped(_) => false,
        }
    }

    /// Why the loop stopped, once it has.
    pub fn stop_reason(&self) -> (r: Option<StopReason>)
        ensures
            match r {
                Some(reason) => self@ == ServerState::Stopped(reason),
                None => self@ is Running,
            },
    {
        match self.state {
            ServerState::Running => None,
            ServerState::Stopped(reason) => Some(reason),
        }
    }

    /// Process one merged event: step the state machine and tell the driver
    /// what to do.
    pub fn on_event(&mut self, event: MergeEvent) -> (a: LoopAction)
        ensures
            final(self)@ == spec_step(old(self)@, event),
            a == spec_action(old(self)@, event),
    {
        match self.state {
            ServerState::Stopped(_) => LoopAction::Ignore,
            ServerState::Running => match event {
                MergeEvent::Connection => LoopAction::Spawn,
                MergeEvent::Shutdown => {
                    self.state = ServerState::Stopped(StopReason::ShutdownRequested);
                    LoopAction::Stop(StopReason::ShutdownRequested)
                },
                MergeEvent::Both => {
                    self.state = ServerState::Stopped(StopReason::ShutdownRequested);
                    LoopAction::Stop(StopReason::ShutdownRequested)
                },
                MergeEvent::AcceptError => {
                    self.state = ServerState::Stopped(StopReason::ListenerFailed);
                    LoopAction::Stop(StopReason::ListenerFailed)
                },
            },
        }
    }
}

} // verus!
