//! The accept loop of one listening endpoint.
//!
//! A listener accepts connections and has each handled in a task of its
//! own, until the shutdown signal arrives or the listening socket turns
//! out to be unusable. It then accepts no more, and ends when the tasks it
//! started have ended or the drain deadline has passed. The runtime owns
//! the socket and the tasks; `step` decides what follows each event.

use vstd::prelude::*;

verus! {

/// The kinds of failure that accepting a connection can report.
#[derive(Clone, Copy, Debug, PartialEq, Eq)]
pub enum AcceptError {
    /// No connection is waiting right now.
    WouldBlock,
    /// The call was interrupted.
    Interrupted,
    /// The peer gave up before the connection was accepted.
    ConnectionAborted,
    /// The peer reset the connection before it was accepted.
    ConnectionReset,
    /// The call timed out.
    TimedOut,
    /// Descriptors or memory ran out for the moment.
    ResourcesExhausted,
    /// The listening socket is not valid or not listening.
    InvalidSocket,
    /// The process may not accept on this socket.
    PermissionDenied,
    /// Any other failure.
    Other,
}

/// Tells whether a failure leaves the listening socket usable, so that
/// accepting may go on.
pub open spec fn is_transient(error: AcceptError) -> bool {
    !(error is InvalidSocket || error is PermissionDenied || error is Other)
}

/// Where a listener stands.
#[derive(Clone, Copy, Debug, PartialEq, Eq)]
pub enum ListenerState {
    /// Accepting connections; `in_flight` tasks are running.
    Accepting { in_flight: u64 },
    /// Accepting no more; waiting for `in_flight` tasks to end.
    Draining { in_flight: u64 },
    /// Ended after the shutdown signal.
    Stopped,
    /// Ended because the listening socket became unusable.
    Failed(AcceptError),
}

/// What the runtime observed.
#[derive(Clone, Copy, Debug, PartialEq, Eq)]
pub enum ListenerEvent {
    /// A connection was accepted.
    Accepted,
    /// Accepting failed.
    AcceptFailed(AcceptError),
    /// A task that handled a connection ended.
    ConnectionFinished,
    /// The shutdown signal was observed.
    ShutdownSignalled,
    /// The drain deadline passed.
    DeadlineElapsed,
}

/// What the runtime is to do next.
#[derive(Clone, Copy, Debug, PartialEq, Eq)]
pub enum ListenerAction {
    /// Start a task that runs the pipeline on the accepted connection.
    Spawn,
    /// Close the accepted connection unhandled.
    Refuse,
    /// Log the failure and accept again.
    LogAndContinue,
    /// Stop accepting; the running tasks are left to finish.
    StopAccepting,
    /// Stop accepting and report the failure to whoever started the
    /// listener.
    ReportFatal(AcceptError),
    /// The listener has ended: release its guard.
    Finish,
    /// Nothing.
    Nothing,
}

/// The state and the action that follow an event.
pub open spec fn step_spec(state: ListenerState, event: ListenerEvent) -> (ListenerState, ListenerAction) {
    match (state, event) {
        (ListenerState::Accepting { in_flight }, ListenerEvent::Accepted) => if in_flight < u64::MAX {
            (ListenerState::Accepting { in_flight: (in_flight + 1) as u64 }, ListenerAction::Spawn)
        } else {
            (state, ListenerAction::Refuse)
        },
        (ListenerState::Accepting { in_flight }, ListenerEvent::AcceptFailed(e)) => if is_transient(e) {
            (state, ListenerAction::LogAndContinue)
        } else {
            (ListenerState::Failed(e), ListenerAction::ReportFatal(e))
        },
        (ListenerState::Accepting { in_flight }, ListenerEvent::ConnectionFinished) => if in_flight > 0 {
            (ListenerState::Accepting { in_flight: (in_flight - 1) as u64 }, ListenerAction::Nothing)
        } else {
            (state, ListenerAction::Nothing)
        },
        (ListenerState::Accepting { in_flight }, ListenerEvent::ShutdownSignalled) => if in_flight > 0 {
            (ListenerState::Draining { in_flight }, ListenerAction::StopAccepting)
        } else {
            (ListenerState::Stopped, ListenerAction::Finish)
        },
        (ListenerState::Draining { in_flight }, ListenerEvent::Accepted) => (state, ListenerAction::Refuse),
        (ListenerState::Draining { in_flight }, ListenerEvent::ConnectionFinished) => if in_flight > 1 {
            (ListenerState::Draining { in_flight: (in_flight - 1) as u64 }, ListenerAction::Nothing)
        } else {
            (ListenerState::Stopped, ListenerAction::Finish)
        },
        (ListenerState::Draining { in_flight }, ListenerEvent::DeadlineElapsed) => (
            ListenerState::Stopped,
            ListenerAction::Finish,
        ),
        (ListenerState::Stopped, ListenerEvent::Accepted) => (state, ListenerAction::Refuse),
        (ListenerState::Failed(_), ListenerEvent::Accepted) => (state, ListenerAction::Refuse),
        (s, _) => (s, ListenerAction::Nothing),
    }
}

/// The state after a sequence of events.
pub open spec fn run(state: ListenerState, events: Seq<ListenerEvent>) -> ListenerState
    decreases events.len(),
{
    if events.len() == 0 {
        state
    } else {
        step_spec(run(state, events.drop_last()), events.last()).0
    }
}

/// The action that the `i`-th of a sequence of events brings.
pub open spec fn action_at(state: ListenerState, events: Seq<ListenerEvent>, i: int) -> ListenerAction {
    step_spec(run(state, events.take(i)), events[i]).1
}

/// Tells whether a failure of accepting leaves the listening socket
/// usable.
pub fn transient(error: AcceptError) -> (r: bool)
    ensures
        r == is_transient(error),
{
    match error {
        AcceptError::InvalidSocket => false,
        AcceptError::PermissionDenied => false,
        AcceptError::Other => false,
        _ => true,
    }
}

/// A listener that has just bound its socket: it accepts, and no task is
/// running.
pub fn start() -> (state: ListenerState)
    ensures
        state == (ListenerState::Accepting { in_flight: 0 }),
{
    ListenerState::Accepting { in_flight: 0 }
}

/// Decides what follows `event` for a listener in `state`.
pub fn step(state: ListenerState, event: ListenerEvent) -> (r: (ListenerState, ListenerAction))
    ensures
        r == step_spec(state, event),
{
    match state {
        ListenerState::Accepting { in_flight } => match event {
            ListenerEvent::Accepted => {
                if in_flight < u64::MAX {
                    (ListenerState::Accepting { in_flight: in_flight + 1 }, ListenerAction::Spawn)
                } else {
                    (state, ListenerAction::Refuse)
                }
            },
            ListenerEvent::AcceptFailed(e) => {
                if transient(e) {
                    (state, ListenerAction::LogAndContinue)
                } else {
                    (ListenerState::Failed(e), ListenerAction::ReportFatal(e))
                }
            },
            ListenerEvent::ConnectionFinished => {
                if in_flight > 0 {
                    (ListenerState::Accepting { in_flight: in_flight - 1 }, ListenerAction::Nothing)
                } else {
                    (state, ListenerAction::Nothing)
                }
            },
            ListenerEvent::ShutdownSignalled => {
                if in_flight > 0 {
                    (ListenerState::Draining { in_flight }, ListenerAction::StopAccepting)
                } else {
                    (ListenerState::Stopped, ListenerAction::Finish)
                }
            },
            ListenerEvent::DeadlineElapsed => (state, ListenerAction::Nothing),
        },
        ListenerState::Draining { in_flight } => match event {
            ListenerEvent::Accepted => (state, ListenerAction::Refuse),
            ListenerEvent::ConnectionFinished => {
                if in_flight > 1 {
                    (ListenerState::Draining { in_flight: in_flight - 1 }, ListenerAction::Nothing)
                } else {
                    (ListenerState::Stopped, ListenerAction::Finish)
                }
            },
            ListenerEvent::DeadlineElapsed => (ListenerState::Stopped, ListenerAction::Finish),
            _ => (state, ListenerAction::Nothing),
        },
        ListenerState::Stopped => match event {
            ListenerEvent::Accepted => (state, ListenerAction::Refuse),
            _ => (state, ListenerAction::Nothing),
        },
        ListenerState::Failed(_) => match event {
            ListenerEvent::Accepted => (state, ListenerAction::Refuse),
            _ => (state, ListenerAction::Nothing),
        },
    }
}

/// A listener that has stopped accepting never accepts again.
pub proof fn lemma_stays_closed(state: ListenerState, events: Seq<ListenerEvent>)
    requires
        !(state is Accepting),
    ensures
        !(run(state, events) is Accepting),
    decreases events.len(),
{
    if events.len() > 0 {
        lemma_stays_closed(state, events.drop_last());
    }
}

/// Running a sequence of events is running its start and then its rest.
pub proof fn lemma_run_split(state: ListenerState, events: Seq<ListenerEvent>, k: int)
    requires
        0 <= k <= events.len(),
    ensures
        run(state, events) == run(run(state, events.take(k)), events.skip(k)),
    decreases events.len(),
{
    if k == events.len() {
        assert(events.take(k) =~= events);
        assert(events.skip(k) =~= Seq::<ListenerEvent>::empty());
    } else {
        let shorter = events.drop_last();
        lemma_run_split(state, shorter, k);
        assert(shorter.take(k) =~= events.take(k));
        assert(shorter.skip(k) =~= events.skip(k).drop_last());
        assert(events.skip(k).last() == events.last());
    }
}

/// After the shutdown signal no connection is handed to a new task,
/// whatever is still accepted; the tasks already running are not touched.
pub proof fn law_no_spawn_after_shutdown(events: Seq<ListenerEvent>, i: int, j: int)
    requires
        0 <= i < j < events.len(),
        events[i] is ShutdownSignalled,
    ensures
        !(action_at(start_spec(), events, j) is Spawn),
{
    let before_j = events.take(j);
    let upto_i = before_j.take(i + 1);
    assert(upto_i =~= events.take(i + 1));
    assert(upto_i.drop_last() =~= events.take(i));
    assert(upto_i.last() == events[i]);
    assert(!(run(start_spec(), upto_i) is Accepting));
    lemma_run_split(start_spec(), before_j, i + 1);
    lemma_stays_closed(run(start_spec(), upto_i), before_j.skip(i + 1));
}

/// The state of a listener that has just bound its socket.
pub open spec fn start_spec() -> ListenerState {
    ListenerState::Accepting { in_flight: 0 }
}

/// A transient failure leaves the listener as it was, and it goes on
/// accepting; any other failure ends it at once and is reported.
pub proof fn law_accept_failures(in_flight: u64, error: AcceptError)
    ensures
        is_transient(error) ==> step_spec(
            ListenerState::Accepting { in_flight },
            ListenerEvent::AcceptFailed(error),
        ) == (ListenerState::Accepting { in_flight }, ListenerAction::LogAndContinue),
        !is_transient(error) ==> step_spec(
            ListenerState::Accepting { in_flight },
            ListenerEvent::AcceptFailed(error),
        ) == (ListenerState::Failed(error), ListenerAction::ReportFatal(error)),
{
}

/// A draining listener ends when its last task ends or the deadline
/// passes, whichever comes first, and not before.
pub proof fn law_drain_ends(in_flight: u64, event: ListenerEvent)
    requires
        in_flight > 0,
    ensures
        step_spec(ListenerState::Draining { in_flight }, event).0 is Stopped <==> (event is DeadlineElapsed
            || (event is ConnectionFinished && in_flight == 1)),
{
}

} // verus!
