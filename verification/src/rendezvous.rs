//! Deferred-initialization rendezvous.
//!
//! A long-running bootstrap job runs on a background worker and reports
//! its single result through a oneshot channel. The foreground holds a
//! `RendezvousCell`, polls it once per tick without blocking, and is
//! guaranteed to observe the result at most once: after the first
//! delivery the cell is retired and every later poll returns nothing.

use vstd::prelude::*;

verus! {

/// Why a bootstrap attempt failed.
#[derive(Debug)]
pub enum GpuInitError {
    /// No compatible adapter was found.
    NoAdapter,
    /// The device request was rejected, with the driver's reason.
    RequestDevice(String),
    /// The background job went away without delivering a result.
    DeliveryBroken,
}

impl GpuInitError {
    /// A human-readable description of the failure.
    pub fn describe(&self) -> (r: String)
        ensures
            match self {
                GpuInitError::NoAdapter => r@ == "no compatible GPU adapter available"@,
                GpuInitError::RequestDevice(s) => r@ == "failed to request device: "@ + s@,
                GpuInitError::DeliveryBroken => r@
                    == "initialization channel closed unexpectedly"@,
            },
    {
        match self {
            GpuInitError::NoAdapter => String::from_str("no compatible GPU adapter available"),
            GpuInitError::RequestDevice(s) => String::from_str("failed to request device: ")
                .concat(s.as_str()),
            GpuInitError::DeliveryBroken => String::from_str(
                "initialization channel closed unexpectedly",
            ),
        }
    }
}

/// Declares `tokio::sync::oneshot::Receiver` so it can stand in fields;
/// the type stays opaque.
#[verifier::external_type_specification]
#[verifier::external_body]
#[verifier::reject_recursive_types(T)]
pub struct ExReceiver<T>(tokio::sync::oneshot::Receiver<T>);

/// Declares `tokio::sync::oneshot::error::RecvError`, which the
/// receiver's `Future` impl mentions; nothing here reads it.
#[verifier::external_type_specification]
#[verifier::external_body]
pub struct ExRecvError(tokio::sync::oneshot::error::RecvError);

/// What one non-blocking look at the channel found.
enum RecvPoll<T> {
    Received(T),
    Empty,
    Closed,
}

/// Relies on `tokio::sync::oneshot::Receiver::try_recv`: non-blocking; it
/// returns the sent value once it is available, `Empty` while the sender
/// still holds the channel open, and `Closed` after the sender dropped
/// without sending or the value was already taken. Which case applies
/// depends on the background side, so nothing is assumed about the
/// outcome.
#[verifier::external_body]
fn try_recv_poll<T>(rx: &mut tokio::sync::oneshot::Receiver<T>) -> (r: RecvPoll<T>) {
    match rx.try_recv() {
        Ok(v) => RecvPoll::Received(v),
        Err(tokio::sync::oneshot::error::TryRecvError::Empty) => RecvPoll::Empty,
        Err(tokio::sync::oneshot::error::TryRecvError::Closed) => RecvPoll::Closed,
    }
}

/// Single-delivery holder of one bootstrap result of type
/// `Result<T, GpuInitError>`.
#[verifier::reject_recursive_types(T)]
pub struct RendezvousCell<T> {
    rx: tokio::sync::oneshot::Receiver<Result<T, GpuInitError>>,
    taken: bool,
}

impl<T> RendezvousCell<T> {
    /// Whether the single delivery has already happened.
    pub closed spec fn retired(&self) -> bool {
        self.taken
    }

    /// Arms a cell around the receiving half of the bootstrap channel.
    pub fn new(rx: tokio::sync::oneshot::Receiver<Result<T, GpuInitError>>) -> (r:
        RendezvousCell<T>)
        ensures
            !r.retired(),
    {
        RendezvousCell { rx, taken: false }
    }

    /// Non-blocking take. Before the background job reports, this
    /// returns `None` and the cell stays armed. The first call that
    /// observes the result — a delivered value, or `DeliveryBroken` when
    /// the background side went away silently — retires the cell, and
    /// every call on a retired cell returns `None` again: the result is
    /// delivered at most once.
    pub fn try_take(&mut self) -> (r: Option<Result<T, GpuInitError>>)
        ensures
            final(self).retired() == (old(self).retired() || r is Some),
            old(self).retired() ==> r is None,
    {
        if self.taken {
            return None;
        }
        match try_recv_poll(&mut self.rx) {
            RecvPoll::Received(res) => {
                self.taken = true;
                Some(res)
            },
            RecvPoll::Empty => None,
            RecvPoll::Closed => {
                self.taken = true;
                Some(Err(GpuInitError::DeliveryBroken))
            },
        }
    }
}

/// What one tick of the poller found.
pub enum PollOutcome<T> {
    /// No bootstrap is pending: the slot is empty.
    Idle,
    /// The background job has not reported yet.
    Pending,
    /// The job delivered a context; the slot is now cleared.
    Ready(T),
    /// The job failed (or its channel broke); the slot is now cleared.
    Failed(GpuInitError),
}

/// One tick of the init poller. An empty slot is a permanent no-op
/// (`Idle`); a pending cell is left in place; the first observed result
/// empties the slot and is reported exactly once, as `Ready` or
/// `Failed`.
pub fn poll_once<T>(slot: &mut Option<RendezvousCell<T>>) -> (r: PollOutcome<T>)
    ensures
        (r is Idle) == ((*old(slot)) is None),
        (*old(slot)) is None ==> (*final(slot)) is None,
        r is Pending ==> (*final(slot)) is Some,
        (r is Ready || r is Failed) ==> (*final(slot)) is None && (*old(slot)) is Some,
        (*old(slot)) is Some && (*final(slot)) is None ==> (r is Ready || r is Failed),
        match (*old(slot), *final(slot)) {
            (Some(c0), Some(c)) => c.retired() == c0.retired(),
            _ => true,
        },
{
    let mut pending: Option<RendezvousCell<T>> = None;
    core::mem::swap(slot, &mut pending);
    match pending {
        None => PollOutcome::Idle,
        Some(mut cell) => {
            match cell.try_take() {
                None => {
                    *slot = Some(cell);
                    PollOutcome::Pending
                },
                Some(Ok(ctx)) => PollOutcome::Ready(ctx),
                Some(Err(e)) => PollOutcome::Failed(e),
            }
        },
    }
}

} // verus!
