//! The coordinator of a graceful shutdown.
//!
//! The coordinator counts the work that is under way: each task that is
//! started registers a guard, and the count stays above zero until every
//! guard has been released. A shutdown raises the cancellation signal,
//! which tasks observe when they look, and then waits for the count to
//! reach zero, but not beyond a deadline. The runtime keeps the clock and
//! wakes the waiter; the coordinator decides.

use vstd::prelude::*;

verus! {

/// Why a shutdown did not complete.
#[derive(Clone, Copy, Debug, PartialEq, Eq)]
pub enum ShutdownError {
    /// Work was still under way when the deadline passed.
    Timeout,
}

/// What is to become of the tasks that are still running when the deadline
/// passes. The caller chooses; nothing is decided for it.
#[derive(Clone, Copy, Debug, PartialEq, Eq)]
pub enum TimeoutPolicy {
    /// Abort them.
    AbortRemaining,
    /// Leave them to the exit of the process.
    AbandonRemaining,
}

/// The token that a task holds while it runs. As long as a guard is held,
/// no shutdown counts as complete.
#[derive(Debug)]
pub struct ShutdownGuard {
    token: (),
}

/// How a shutdown stands at some moment.
#[derive(Clone, Copy, Debug, PartialEq, Eq)]
pub enum DrainStatus {
    /// Work is under way and the deadline has not passed: wait on.
    Pending,
    /// No work is under way: the shutdown is complete.
    Drained,
    /// The deadline has passed with `remaining` guards still held; `policy`
    /// says what is to become of their tasks.
    TimedOut { remaining: u64, policy: TimeoutPolicy },
}

/// The coordinator: the count of guards held, whether the cancellation
/// signal has been raised, and the policy chosen for a timeout.
#[derive(Debug)]
pub struct ShutdownCoordinator {
    pub active: u64,
    pub cancelled: bool,
    pub policy: TimeoutPolicy,
}

/// How a shutdown stands with `active` guards held, `elapsed` time units
/// after it began and with a deadline of `deadline` units: complete as
/// soon as no guard is held, timed out once the deadline is reached with
/// guards held, pending until then.
pub open spec fn status_spec(active: u64, elapsed: u64, deadline: u64, policy: TimeoutPolicy) -> DrainStatus {
    if active == 0 {
        DrainStatus::Drained
    } else if elapsed >= deadline {
        DrainStatus::TimedOut { remaining: active, policy }
    } else {
        DrainStatus::Pending
    }
}

/// The coordinator after a shutdown was asked for: the signal is raised,
/// and nothing else has changed.
pub open spec fn after_shutdown(c: ShutdownCoordinator) -> ShutdownCoordinator {
    ShutdownCoordinator { active: c.active, cancelled: true, policy: c.policy }
}

/// The result that a status stands for: none yet while pending.
pub open spec fn result_spec(status: DrainStatus) -> Option<Result<(), ShutdownError>> {
    match status {
        DrainStatus::Pending => None,
        DrainStatus::Drained => Some(Ok(())),
        DrainStatus::TimedOut { .. } => Some(Err(ShutdownError::Timeout)),
    }
}

/// The number of guards held at time `t` where a single task was started
/// and ends at `finish`, or never.
pub open spec fn held_at(finish: Option<u64>, t: u64) -> u64 {
    match finish {
        Some(f) => if f <= t {
            0
        } else {
            1
        },
        None => 1,
    }
}

impl ShutdownCoordinator {
    /// A coordinator with no work under way and no signal raised, and with
    /// the policy to follow if a shutdown times out.
    pub fn new(policy: TimeoutPolicy) -> (c: ShutdownCoordinator)
        ensures
            c.active == 0,
            !c.cancelled,
            c.policy == policy,
    {
        ShutdownCoordinator { active: 0, cancelled: false, policy }
    }

    /// Registers a task that is about to start and returns the guard that
    /// it holds while it runs. The count of work under way goes up by one.
    pub fn spawn(&mut self) -> (guard: ShutdownGuard)
        requires
            old(self).active < u64::MAX,
        ensures
            final(self).active == old(self).active + 1,
            final(self).cancelled == old(self).cancelled,
            final(self).policy == old(self).policy,
    {
        self.active = self.active + 1;
        ShutdownGuard { token: () }
    }

    /// Registers a second holder for the work that `guard` stands for. The
    /// count goes up by one.
    pub fn share(&mut self, guard: &ShutdownGuard) -> (second: ShutdownGuard)
        requires
            old(self).active < u64::MAX,
        ensures
            final(self).active == old(self).active + 1,
            final(self).cancelled == old(self).cancelled,
            final(self).policy == old(self).policy,
    {
        self.active = self.active + 1;
        ShutdownGuard { token: () }
    }

    /// Takes back the guard of a task that has ended. The count goes down
    /// by one.
    pub fn release(&mut self, guard: ShutdownGuard)
        requires
            old(self).active > 0,
        ensures
            final(self).active == old(self).active - 1,
            final(self).cancelled == old(self).cancelled,
            final(self).policy == old(self).policy,
    {
        self.active = self.active - 1;
    }

    /// Tells whether the cancellation signal has been raised. Tasks look
    /// here wherever they could otherwise wait.
    pub fn is_cancelled(&self) -> (r: bool)
        ensures
            r == self.cancelled,
    {
        self.cancelled
    }

    /// The number of guards held.
    pub fn active(&self) -> (n: u64)
        ensures
            n == self.active,
    {
        self.active
    }

    /// Raises the cancellation signal, if it is not raised yet, and tells
    /// how the shutdown stands `elapsed` time units after it began, with a
    /// deadline of `deadline` units.
    ///
    /// The runtime calls this when the shutdown is asked for, whenever a
    /// guard is released and when the deadline passes. A second call finds
    /// the signal raised and leaves it so.
    pub fn shutdown(&mut self, elapsed: u64, deadline: u64) -> (status: DrainStatus)
        ensures
            *final(self) == after_shutdown(*old(self)),
            status == status_spec(old(self).active, elapsed, deadline, old(self).policy),
    {
        self.cancelled = true;
        if self.active == 0 {
            DrainStatus::Drained
        } else if elapsed >= deadline {
            DrainStatus::TimedOut { remaining: self.active, policy: self.policy }
        } else {
            DrainStatus::Pending
        }
    }
}

/// The result that a status stands for: none while the shutdown is
/// pending, success once drained, `Timeout` once timed out.
pub fn conclude(status: DrainStatus) -> (r: Option<Result<(), ShutdownError>>)
    ensures
        r == result_spec(status),
{
    match status {
        DrainStatus::Pending => None,
        DrainStatus::Drained => Some(Ok(())),
        DrainStatus::TimedOut { .. } => Some(Err(ShutdownError::Timeout)),
    }
}

/// Drain: a shutdown succeeds exactly when no guard is held, and times out
/// exactly when guards are held at or after the deadline: never earlier.
pub proof fn law_drain(active: u64, elapsed: u64, deadline: u64, policy: TimeoutPolicy)
    ensures
        result_spec(status_spec(active, elapsed, deadline, policy)) == Some(Ok::<(), ShutdownError>(()))
            <==> active == 0,
        result_spec(status_spec(active, elapsed, deadline, policy)) == Some(
            Err::<(), ShutdownError>(ShutdownError::Timeout),
        ) <==> active > 0 && elapsed >= deadline,
        result_spec(status_spec(active, elapsed, deadline, policy)) is None <==> active > 0 && elapsed
            < deadline,
{
}

/// Drain over time, for a task that ends at `finish`, before the deadline:
/// the shutdown is pending until the task ends and succeeds from then on,
/// so it returns success before the deadline.
pub proof fn law_drain_in_time(finish: u64, deadline: u64, policy: TimeoutPolicy, t: u64)
    requires
        finish < deadline,
    ensures
        t < finish ==> result_spec(status_spec(held_at(Some(finish), t), t, deadline, policy)) is None,
        t >= finish ==> result_spec(status_spec(held_at(Some(finish), t), t, deadline, policy)) == Some(
            Ok::<(), ShutdownError>(()),
        ),
{
}

/// Drain over time, for a task that never ends: the shutdown is pending
/// until the deadline and times out from then on.
pub proof fn law_drain_never(deadline: u64, policy: TimeoutPolicy, t: u64)
    ensures
        t < deadline ==> result_spec(status_spec(held_at(None, t), t, deadline, policy)) is None,
        t >= deadline ==> result_spec(status_spec(held_at(None, t), t, deadline, policy)) == Some(
            Err::<(), ShutdownError>(ShutdownError::Timeout),
        ),
{
}

/// Idempotence: a second shutdown finds the signal raised and leaves the
/// coordinator as the first left it, and it gives the status that the
/// first gave at the same moment.
pub proof fn law_shutdown_idempotent(c: ShutdownCoordinator, elapsed: u64, deadline: u64)
    ensures
        after_shutdown(after_shutdown(c)) == after_shutdown(c),
        status_spec(after_shutdown(c).active, elapsed, deadline, after_shutdown(c).policy) == status_spec(
            c.active,
            elapsed,
            deadline,
            c.policy,
        ),
{
}

} // verus!
