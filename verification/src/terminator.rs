//! The life of one connection at the TLS-terminating hop.
//!
//! A connection is accepted, performs the server side of the handshake,
//! carries cleartext while established, and is closed. The runtime does
//! the handshake and the I/O; `step` decides what follows each event.

use vstd::prelude::*;

verus! {

/// Why a TLS handshake failed.
#[derive(Clone, Copy, Debug, PartialEq, Eq)]
pub enum HandshakeError {
    /// Client and server share no protocol version.
    ProtocolMismatch,
    /// The client sent a record that cannot be read.
    MalformedRecord,
    /// Client and server share no cipher.
    NoSharedCipher,
    /// The stream ended, failed or was cancelled before the handshake did.
    Interrupted,
}

/// Where a connection stands.
#[derive(Clone, Copy, Debug, PartialEq, Eq)]
pub enum TerminatorState {
    /// Waiting for a raw connection.
    Listening,
    /// The handshake is under way.
    Handshaking,
    /// The handshake succeeded; cleartext flows.
    Established,
    /// The connection is over.
    Closed,
}

/// What the runtime observed.
#[derive(Clone, Copy, Debug, PartialEq, Eq)]
pub enum TerminatorEvent {
    /// A raw TCP connection was accepted.
    Accepted,
    /// The handshake succeeded.
    HandshakeCompleted,
    /// The handshake failed for the given reason.
    HandshakeFailed(HandshakeError),
    /// The stream reached its end.
    StreamEnded,
    /// The stream failed.
    StreamFailed,
    /// The shutdown signal was observed.
    Cancelled,
}

/// What the runtime is to do next.
#[derive(Clone, Copy, Debug, PartialEq, Eq)]
pub enum TerminatorAction {
    /// Start the server side of the handshake on the accepted stream.
    BeginHandshake,
    /// Hand the cleartext stream and the handshake's outcome to the next
    /// stage.
    HandOver,
    /// Close the connection and report the error; nothing is retried.
    Reject(HandshakeError),
    /// Close the connection.
    Close,
    /// Nothing: the event does not concern the connection as it stands.
    Nothing,
}

/// The state and the action that follow an event.
///
/// From `Handshaking` every event but success closes the connection at
/// once; from `Established`, the end of the stream, its failure and
/// cancellation do; `Closed` is left by nothing.
pub open spec fn step_spec(state: TerminatorState, event: TerminatorEvent) -> (
    TerminatorState,
    TerminatorAction,
) {
    match (state, event) {
        (TerminatorState::Listening, TerminatorEvent::Accepted) => (
            TerminatorState::Handshaking,
            TerminatorAction::BeginHandshake,
        ),
        (TerminatorState::Listening, TerminatorEvent::Cancelled) => (
            TerminatorState::Closed,
            TerminatorAction::Close,
        ),
        (TerminatorState::Handshaking, TerminatorEvent::HandshakeCompleted) => (
            TerminatorState::Established,
            TerminatorAction::HandOver,
        ),
        (TerminatorState::Handshaking, TerminatorEvent::HandshakeFailed(e)) => (
            TerminatorState::Closed,
            TerminatorAction::Reject(e),
        ),
        (TerminatorState::Handshaking, TerminatorEvent::Accepted) => (
            TerminatorState::Handshaking,
            TerminatorAction::Nothing,
        ),
        (TerminatorState::Handshaking, _) => (
            TerminatorState::Closed,
            TerminatorAction::Reject(HandshakeError::Interrupted),
        ),
        (TerminatorState::Established, TerminatorEvent::StreamEnded) => (
            TerminatorState::Closed,
            TerminatorAction::Close,
        ),
        (TerminatorState::Established, TerminatorEvent::StreamFailed) => (
            TerminatorState::Closed,
            TerminatorAction::Close,
        ),
        (TerminatorState::Established, TerminatorEvent::Cancelled) => (
            TerminatorState::Closed,
            TerminatorAction::Close,
        ),
        (s, _) => (s, TerminatorAction::Nothing),
    }
}

/// How far along its life a connection is.
pub open spec fn rank(state: TerminatorState) -> int {
    match state {
        TerminatorState::Listening => 0,
        TerminatorState::Handshaking => 1,
        TerminatorState::Established => 2,
        TerminatorState::Closed => 3,
    }
}

/// The state after a sequence of events.
pub open spec fn run(state: TerminatorState, events: Seq<TerminatorEvent>) -> TerminatorState
    decreases events.len(),
{
    if events.len() == 0 {
        state
    } else {
        step_spec(run(state, events.drop_last()), events.last()).0
    }
}

/// The action that the `i`-th of a sequence of events brings.
pub open spec fn action_at(state: TerminatorState, events: Seq<TerminatorEvent>, i: int) -> TerminatorAction {
    step_spec(run(state, events.take(i)), events[i]).1
}

/// Decides what follows `event` for a connection in `state`.
pub fn step(state: TerminatorState, event: TerminatorEvent) -> (r: (TerminatorState, TerminatorAction))
    ensures
        r == step_spec(state, event),
{
    match state {
        TerminatorState::Listening => match event {
            TerminatorEvent::Accepted => (TerminatorState::Handshaking, TerminatorAction::BeginHandshake),
            TerminatorEvent::Cancelled => (TerminatorState::Closed, TerminatorAction::Close),
            _ => (state, TerminatorAction::Nothing),
        },
        TerminatorState::Handshaking => match event {
            TerminatorEvent::HandshakeCompleted => (TerminatorState::Established, TerminatorAction::HandOver),
            TerminatorEvent::HandshakeFailed(e) => (TerminatorState::Closed, TerminatorAction::Reject(e)),
            TerminatorEvent::Accepted => (state, TerminatorAction::Nothing),
            _ => (TerminatorState::Closed, TerminatorAction::Reject(HandshakeError::Interrupted)),
        },
        TerminatorState::Established => match event {
            TerminatorEvent::StreamEnded => (TerminatorState::Closed, TerminatorAction::Close),
            TerminatorEvent::StreamFailed => (TerminatorState::Closed, TerminatorAction::Close),
            TerminatorEvent::Cancelled => (TerminatorState::Closed, TerminatorAction::Close),
            _ => (state, TerminatorAction::Nothing),
        },
        TerminatorState::Closed => (state, TerminatorAction::Nothing),
    }
}

/// A connection only moves forward: listening, handshaking, established,
/// closed. No event takes it back, so nothing is ever retried.
pub proof fn law_only_forward(state: TerminatorState, events: Seq<TerminatorEvent>)
    ensures
        rank(run(state, events)) >= rank(state),
    decreases events.len(),
{
    if events.len() > 0 {
        law_only_forward(state, events.drop_last());
    }
}

/// A closed connection stays closed and asks for nothing more.
pub proof fn law_closed_is_final(events: Seq<TerminatorEvent>, i: int)
    requires
        0 <= i < events.len(),
    ensures
        run(TerminatorState::Closed, events) == TerminatorState::Closed,
        action_at(TerminatorState::Closed, events, i) == TerminatorAction::Nothing,
{
    law_only_forward(TerminatorState::Closed, events);
    law_only_forward(TerminatorState::Closed, events.take(i));
}

/// A failed handshake closes the connection whatever comes after it: the
/// stream is never handed over.
pub proof fn law_failure_closes(events: Seq<TerminatorEvent>, e: HandshakeError, i: int)
    requires
        0 <= i < events.len(),
    ensures
        step_spec(TerminatorState::Handshaking, TerminatorEvent::HandshakeFailed(e)) == (
            TerminatorState::Closed,
            TerminatorAction::Reject(e),
        ),
        !(action_at(TerminatorState::Closed, events, i) is HandOver),
{
    law_closed_is_final(events, i);
}

/// The stream of a connection is handed over at most once, and only by a
/// completed handshake.
pub proof fn law_single_hand_over(events: Seq<TerminatorEvent>, i: int, j: int)
    requires
        0 <= i < j < events.len(),
        action_at(TerminatorState::Listening, events, i) is HandOver,
    ensures
        events[i] is HandshakeCompleted,
        run(TerminatorState::Listening, events.take(i)) is Handshaking,
        !(action_at(TerminatorState::Listening, events, j) is HandOver),
{
    let before_j = events.take(j);
    let upto_i = before_j.take(i + 1);
    assert(upto_i =~= events.take(i + 1));
    assert(upto_i.drop_last() =~= events.take(i));
    assert(upto_i.last() == events[i]);
    assert(run(TerminatorState::Listening, upto_i) is Established);
    lemma_run_split(TerminatorState::Listening, before_j, i + 1);
    law_only_forward(run(TerminatorState::Listening, upto_i), before_j.skip(i + 1));
}

/// Running a sequence of events is running its start and then its rest.
pub proof fn lemma_run_split(state: TerminatorState, events: Seq<TerminatorEvent>, k: int)
    requires
        0 <= k <= events.len(),
    ensures
        run(state, events) == run(run(state, events.take(k)), events.skip(k)),
    decreases events.len(),
{
    if k == events.len() {
        assert(events.take(k) =~= events);
        assert(events.skip(k) =~= Seq::<TerminatorEvent>::empty());
    } else {
        let shorter = events.drop_last();
        lemma_run_split(state, shorter, k);
        assert(shorter.take(k) =~= events.take(k));
        assert(shorter.skip(k) =~= events.skip(k).drop_last());
        assert(events.skip(k).last() == events.last());
    }
}

} // verus!
