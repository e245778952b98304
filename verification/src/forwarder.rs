//! The forwarding of one connection to its upstream.
//!
//! Forwarding dials the upstream, writes the header that names the client,
//! and then relays bytes both ways until both directions have ended. The
//! runtime does the dialling and the I/O; `Forwarder::on` decides what
//! follows each event. A forwarder serves one connection once.

use vstd::prelude::*;
use crate::address::SocketAddress;
use crate::codec::{encode_for_client, encode_for_client_spec};
use crate::header::EncodeError;

verus! {

/// Why forwarding ended without both directions reaching their end.
#[derive(Clone, Copy, Debug, PartialEq, Eq)]
pub enum ForwardError {
    /// The upstream could not be connected to in time.
    UpstreamUnreachable,
    /// Writing the header or relaying failed on one of the two legs.
    RelayFailed,
}

/// Where the forwarding of a connection stands.
#[derive(Clone, Copy, Debug, PartialEq, Eq)]
pub enum ForwardState {
    /// Nothing has been done yet.
    Idle,
    /// The upstream is being dialled.
    Dialing,
    /// The upstream is connected and the header is being written.
    SendingHeader,
    /// Bytes are relayed; each flag tells whether that side may still send.
    Relaying { downstream_open: bool, upstream_open: bool },
    /// Both directions have ended.
    Finished,
    /// Forwarding failed.
    Failed(ForwardError),
}

/// What the runtime observed.
#[derive(Clone, Copy, Debug, PartialEq, Eq)]
pub enum ForwardEvent {
    /// Forwarding is asked for.
    Started,
    /// The upstream accepted the connection.
    Connected,
    /// The upstream refused the connection or could not be reached.
    ConnectFailed,
    /// The connect timeout elapsed.
    ConnectTimedOut,
    /// The whole header has been written to the upstream.
    HeaderWritten,
    /// The downstream closed its sending side.
    DownstreamEnded,
    /// The upstream closed its sending side.
    UpstreamEnded,
    /// Reading or writing failed on either leg.
    IoFailed,
}

/// What the runtime is to do next.
#[derive(Clone, Copy, Debug, PartialEq, Eq)]
pub enum ForwardAction {
    /// Connect to the upstream, within the connect timeout.
    Dial,
    /// Write the forwarder's header to the upstream, all of it.
    WriteHeader,
    /// Start copying bytes in both directions, unchanged.
    Relay,
    /// The downstream sends no more: close the sending side towards the
    /// upstream and keep copying the other way.
    CloseUpstreamWrite,
    /// The upstream sends no more: close the sending side towards the
    /// downstream and keep copying the other way.
    CloseDownstreamWrite,
    /// Both directions have ended: close both connections and return.
    Finish,
    /// Close both connections and report the error; nothing is retried.
    Abort(ForwardError),
    /// Nothing: the event does not concern the forwarding as it stands.
    Nothing,
}

/// The state and the action that follow an event.
pub open spec fn step_spec(state: ForwardState, event: ForwardEvent) -> (ForwardState, ForwardAction) {
    match (state, event) {
        (ForwardState::Idle, ForwardEvent::Started) => (ForwardState::Dialing, ForwardAction::Dial),
        (ForwardState::Dialing, ForwardEvent::Connected) => (
            ForwardState::SendingHeader,
            ForwardAction::WriteHeader,
        ),
        (ForwardState::Dialing, ForwardEvent::ConnectFailed) => (
            ForwardState::Failed(ForwardError::UpstreamUnreachable),
            ForwardAction::Abort(ForwardError::UpstreamUnreachable),
        ),
        (ForwardState::Dialing, ForwardEvent::ConnectTimedOut) => (
            ForwardState::Failed(ForwardError::UpstreamUnreachable),
            ForwardAction::Abort(ForwardError::UpstreamUnreachable),
        ),
        (ForwardState::SendingHeader, ForwardEvent::HeaderWritten) => (
            ForwardState::Relaying { downstream_open: true, upstream_open: true },
            ForwardAction::Relay,
        ),
        (ForwardState::SendingHeader, ForwardEvent::IoFailed) => (
            ForwardState::Failed(ForwardError::RelayFailed),
            ForwardAction::Abort(ForwardError::RelayFailed),
        ),
        (ForwardState::Relaying { downstream_open: true, upstream_open }, ForwardEvent::DownstreamEnded) => {
            if upstream_open {
                (
                    ForwardState::Relaying { downstream_open: false, upstream_open: true },
                    ForwardAction::CloseUpstreamWrite,
                )
            } else {
                (ForwardState::Finished, ForwardAction::Finish)
            }
        },
        (ForwardState::Relaying { downstream_open, upstream_open: true }, ForwardEvent::UpstreamEnded) => {
            if downstream_open {
                (
                    ForwardState::Relaying { downstream_open: true, upstream_open: false },
                    ForwardAction::CloseDownstreamWrite,
                )
            } else {
                (ForwardState::Finished, ForwardAction::Finish)
            }
        },
        (ForwardState::Relaying { .. }, ForwardEvent::IoFailed) => (
            ForwardState::Failed(ForwardError::RelayFailed),
            ForwardAction::Abort(ForwardError::RelayFailed),
        ),
        (s, _) => (s, ForwardAction::Nothing),
    }
}

/// How far along forwarding is.
pub open spec fn rank(state: ForwardState) -> int {
    match state {
        ForwardState::Idle => 0,
        ForwardState::Dialing => 1,
        ForwardState::SendingHeader => 2,
        ForwardState::Relaying { downstream_open, upstream_open } => 3 + (if downstream_open {
            0int
        } else {
            1int
        }) + (if upstream_open {
            0int
        } else {
            1int
        }),
        ForwardState::Finished => 6,
        ForwardState::Failed(_) => 6,
    }
}

/// What forwarding returned: nothing while it is under way.
pub open spec fn outcome_of(state: ForwardState) -> Option<Result<(), ForwardError>> {
    match state {
        ForwardState::Finished => Some(Ok(())),
        ForwardState::Failed(e) => Some(Err(e)),
        _ => None,
    }
}

/// The state after a sequence of events.
pub open spec fn run(state: ForwardState, events: Seq<ForwardEvent>) -> ForwardState
    decreases events.len(),
{
    if events.len() == 0 {
        state
    } else {
        step_spec(run(state, events.drop_last()), events.last()).0
    }
}

/// The action that the `i`-th of a sequence of events brings.
pub open spec fn action_at(state: ForwardState, events: Seq<ForwardEvent>, i: int) -> ForwardAction {
    step_spec(run(state, events.take(i)), events[i]).1
}

/// Decides what follows `event` for a forwarding in `state`.
pub fn step(state: ForwardState, event: ForwardEvent) -> (r: (ForwardState, ForwardAction))
    ensures
        r == step_spec(state, event),
{
    match state {
        ForwardState::Idle => match event {
            ForwardEvent::Started => (ForwardState::Dialing, ForwardAction::Dial),
            _ => (state, ForwardAction::Nothing),
        },
        ForwardState::Dialing => match event {
            ForwardEvent::Connected => (ForwardState::SendingHeader, ForwardAction::WriteHeader),
            ForwardEvent::ConnectFailed => (
                ForwardState::Failed(ForwardError::UpstreamUnreachable),
                ForwardAction::Abort(ForwardError::UpstreamUnreachable),
            ),
            ForwardEvent::ConnectTimedOut => (
                ForwardState::Failed(ForwardError::UpstreamUnreachable),
                ForwardAction::Abort(ForwardError::UpstreamUnreachable),
            ),
            _ => (state, ForwardAction::Nothing),
        },
        ForwardState::SendingHeader => match event {
            ForwardEvent::HeaderWritten => (
                ForwardState::Relaying { downstream_open: true, upstream_open: true },
                ForwardAction::Relay,
            ),
            ForwardEvent::IoFailed => (
                ForwardState::Failed(ForwardError::RelayFailed),
                ForwardAction::Abort(ForwardError::RelayFailed),
            ),
            _ => (state, ForwardAction::Nothing),
        },
        ForwardState::Relaying { downstream_open, upstream_open } => match event {
            ForwardEvent::DownstreamEnded => {
                if !downstream_open {
                    (state, ForwardAction::Nothing)
                } else if upstream_open {
                    (
                        ForwardState::Relaying { downstream_open: false, upstream_open: true },
                        ForwardAction::CloseUpstreamWrite,
                    )
                } else {
                    (ForwardState::Finished, ForwardAction::Finish)
                }
            },
            ForwardEvent::UpstreamEnded => {
                if !upstream_open {
                    (state, ForwardAction::Nothing)
                } else if downstream_open {
                    (
                        ForwardState::Relaying { downstream_open: true, upstream_open: false },
                        ForwardAction::CloseDownstreamWrite,
                    )
                } else {
                    (ForwardState::Finished, ForwardAction::Finish)
                }
            },
            ForwardEvent::IoFailed => (
                ForwardState::Failed(ForwardError::RelayFailed),
                ForwardAction::Abort(ForwardError::RelayFailed),
            ),
            _ => (state, ForwardAction::Nothing),
        },
        ForwardState::Finished => (state, ForwardAction::Nothing),
        ForwardState::Failed(_) => (state, ForwardAction::Nothing),
    }
}

/// The forwarding of one connection: where it stands, and the header that
/// goes ahead of the relayed bytes.
pub struct Forwarder {
    pub state: ForwardState,
    pub header: Vec<u8>,
}

impl Forwarder {
    /// Prepares the forwarding of a connection: encodes the header that
    /// names `client` as the source and `destination` as the destination,
    /// or the header of a connection of the proxy's own where no client is
    /// given. Nothing has been dialled yet.
    ///
    /// Fails exactly when a client is given whose family differs from the
    /// destination's.
    pub fn new(client: Option<&SocketAddress>, destination: &SocketAddress) -> (r: Result<
        Forwarder,
        EncodeError,
    >)
        ensures
            match r {
                Ok(f) => {
                    &&& f.state == ForwardState::Idle
                    &&& f.header@ == encode_for_client_spec(
                        match client {
                            Some(c) => Some(*c),
                            None => None,
                        },
                        *destination,
                    )
                    &&& client matches Some(c) ==> (c.ip is V4) == (destination.ip is V4)
                },
                Err(e) => {
                    &&& e == EncodeError::FamilyMismatch
                    &&& client matches Some(c)
                    &&& (c.ip is V4) != (destination.ip is V4)
                },
            },
    {
        match encode_for_client(client, destination) {
            Ok(header) => Ok(Forwarder { state: ForwardState::Idle, header }),
            Err(e) => Err(e),
        }
    }

    /// Takes in `event` and returns what the runtime is to do next. The
    /// header stays as it was encoded.
    pub fn on(&mut self, event: ForwardEvent) -> (action: ForwardAction)
        ensures
            (final(self).state, action) == step_spec(old(self).state, event),
            final(self).header == old(self).header,
    {
        let (next, action) = step(self.state, event);
        self.state = next;
        action
    }

    /// What forwarding returned: `None` while it is under way, `Ok` once
    /// both directions have ended, the error once it failed.
    pub fn outcome(&self) -> (r: Option<Result<(), ForwardError>>)
        ensures
            r == outcome_of(self.state),
    {
        match self.state {
            ForwardState::Finished => Some(Ok(())),
            ForwardState::Failed(e) => Some(Err(e)),
            _ => None,
        }
    }
}

/// Forwarding only moves forward: no event takes it back to an earlier
/// stage, so nothing is dialled or written twice.
pub proof fn law_only_forward(state: ForwardState, events: Seq<ForwardEvent>)
    ensures
        rank(run(state, events)) >= rank(state),
    decreases events.len(),
{
    if events.len() > 0 {
        law_only_forward(state, events.drop_last());
    }
}

/// Forwarding is one-shot: once it has returned, its outcome stands and no
/// event brings another action.
pub proof fn law_outcome_is_final(state: ForwardState, events: Seq<ForwardEvent>, i: int)
    requires
        outcome_of(state) is Some,
        0 <= i < events.len(),
    ensures
        run(state, events) == state,
        action_at(state, events, i) == ForwardAction::Nothing,
    decreases events.len(),
{
    lemma_settled(state, events);
    lemma_settled(state, events.take(i));
}

/// A forwarding that has returned stays as it is.
proof fn lemma_settled(state: ForwardState, events: Seq<ForwardEvent>)
    requires
        outcome_of(state) is Some,
    ensures
        run(state, events) == state,
    decreases events.len(),
{
    if events.len() > 0 {
        lemma_settled(state, events.drop_last());
    }
}

/// Running a sequence of events is running its start and then its rest.
pub proof fn lemma_run_split(state: ForwardState, events: Seq<ForwardEvent>, k: int)
    requires
        0 <= k <= events.len(),
    ensures
        run(state, events) == run(run(state, events.take(k)), events.skip(k)),
    decreases events.len(),
{
    if k == events.len() {
        assert(events.take(k) =~= events);
        assert(events.skip(k) =~= Seq::<ForwardEvent>::empty());
    } else {
        let shorter = events.drop_last();
        lemma_run_split(state, shorter, k);
        assert(shorter.take(k) =~= events.take(k));
        assert(shorter.skip(k) =~= events.skip(k).drop_last());
        assert(events.skip(k).last() == events.last());
    }
}

/// Whoever is past the header stage got there by writing the header: some
/// earlier event brought the action `WriteHeader`.
proof fn lemma_header_was_written(events: Seq<ForwardEvent>)
    requires
        rank(run(ForwardState::Idle, events)) >= 2,
        !(run(ForwardState::Idle, events) matches ForwardState::Failed(ForwardError::UpstreamUnreachable)),
    ensures
        exists|i: int| 0 <= i < events.len() && action_at(ForwardState::Idle, events, i) is WriteHeader,
    decreases events.len(),
{
    if events.len() > 0 {
        let shorter = events.drop_last();
        let before = run(ForwardState::Idle, shorter);
        assert(events.take(events.len() - 1) =~= shorter);
        if before is Dialing {
            assert(action_at(ForwardState::Idle, events, events.len() - 1) is WriteHeader);
        } else {
            lemma_header_was_written(shorter);
            let i = choose|i: int|
                0 <= i < shorter.len() && action_at(ForwardState::Idle, shorter, i) is WriteHeader;
            assert(shorter.take(i) =~= events.take(i));
            assert(action_at(ForwardState::Idle, events, i) is WriteHeader);
        }
    }
}

/// Ordering: bytes are relayed only after the header has been written.
/// The event that starts the relay is the one that reports the header
/// written, and the header was asked for by an earlier event.
pub proof fn law_header_before_relay(events: Seq<ForwardEvent>, j: int)
    requires
        0 <= j < events.len(),
        action_at(ForwardState::Idle, events, j) is Relay,
    ensures
        events[j] is HeaderWritten,
        exists|i: int| 0 <= i < j && action_at(ForwardState::Idle, events, i) is WriteHeader,
{
    let before = events.take(j);
    assert(run(ForwardState::Idle, before) is SendingHeader);
    lemma_header_was_written(before);
    let i = choose|i: int| 0 <= i < before.len() && action_at(ForwardState::Idle, before, i) is WriteHeader;
    assert(before.take(i) =~= events.take(i));
    assert(action_at(ForwardState::Idle, events, i) is WriteHeader);
}

/// The outcomes and their causes: `UpstreamUnreachable` comes from a
/// failed or timed-out connect alone, before any header is written;
/// `RelayFailed` from an I/O failure after the upstream was connected;
/// success from both sides having ended.
pub proof fn law_outcome_causes(state: ForwardState, event: ForwardEvent)
    requires
        outcome_of(state) is None,
    ensures
        outcome_of(step_spec(state, event).0) == Some(
            Err::<(), ForwardError>(ForwardError::UpstreamUnreachable),
        ) <==> state is Dialing && (event is ConnectFailed || event is ConnectTimedOut),
        outcome_of(step_spec(state, event).0) == Some(Err::<(), ForwardError>(ForwardError::RelayFailed))
            <==> (state is SendingHeader || state is Relaying) && event is IoFailed,
        outcome_of(step_spec(state, event).0) == Some(Ok::<(), ForwardError>(())) <==> (state
            == ForwardState::Relaying { downstream_open: true, upstream_open: false } && event is DownstreamEnded)
            || (state == ForwardState::Relaying { downstream_open: false, upstream_open: true }
            && event is UpstreamEnded),
{
}

} // verus!
