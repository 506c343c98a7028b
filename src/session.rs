//! Per-connection liveness: the decisions a connection's handler makes on
//! each event, and the single pending timer it keeps.
use vstd::prelude::*;
use rand::Rng;
use crate::piece::NUM_SHAPES;

verus! {

/// Where a connection stands.
#[derive(Clone, Copy, Debug, PartialEq, Eq, Structural)]
pub enum SessionState {
    Connecting,
    Open,
    /// Closed by the client with a normal or "going away" code.
    Closing,
    /// The liveness timer ran out and a probe is on its way.
    TimedOut,
    Errored,
    Removed,
}

/// What happened on a connection.
#[derive(Clone, Copy, Debug, PartialEq, Eq, Structural)]
pub enum SessionEvent {
    Opened,
    MessageReceived,
    TimerFired,
    ProbeSent,
    ProbeFailed,
    /// The connection closed; `normal` for a normal or "going away" code.
    Closed { normal: bool },
}

/// What the connection's handler must do next.
#[derive(Clone, Copy, Debug, PartialEq, Eq, Structural)]
pub enum SessionAction {
    Nothing,
    /// Cancel any pending liveness timer and schedule a new one.
    ArmTimer,
    /// Send a liveness probe (a ping).
    SendProbe,
    /// Close the connection with an error code.
    CloseWithError,
    /// Remove the player's piece from the registry.
    RemovePlayer,
    /// Record why the client left.
    LogClose,
}

/// The next state and the action for event `e` in state `s`.
pub open spec fn session_transition(s: SessionState, e: SessionEvent) -> (SessionState, SessionAction) {
    match (s, e) {
        (SessionState::Removed, _) => (SessionState::Removed, SessionAction::Nothing),
        (SessionState::Errored, SessionEvent::Closed { .. }) => (SessionState::Removed, SessionAction::RemovePlayer),
        (SessionState::Errored, _) => (SessionState::Errored, SessionAction::Nothing),
        (_, SessionEvent::Closed { normal: false }) => (SessionState::Removed, SessionAction::RemovePlayer),
        (SessionState::Closing, _) => (SessionState::Closing, SessionAction::Nothing),
        (_, SessionEvent::Closed { normal: true }) => (SessionState::Closing, SessionAction::LogClose),
        (SessionState::Connecting, SessionEvent::Opened) => (SessionState::Open, SessionAction::ArmTimer),
        (SessionState::Connecting, _) => (SessionState::Connecting, SessionAction::Nothing),
        (_, SessionEvent::MessageReceived) => (SessionState::Open, SessionAction::ArmTimer),
        (SessionState::Open, SessionEvent::TimerFired) => (SessionState::TimedOut, SessionAction::SendProbe),
        (SessionState::TimedOut, SessionEvent::ProbeSent) => (SessionState::Open, SessionAction::ArmTimer),
        (SessionState::TimedOut, SessionEvent::ProbeFailed) => (SessionState::Errored, SessionAction::CloseWithError),
        _ => (s, SessionAction::Nothing),
    }
}

/// Decides what a connection does on event `e` in state `s`.
pub fn session_step(s: SessionState, e: SessionEvent) -> (r: (SessionState, SessionAction))
    ensures
        r == session_transition(s, e),
{
    match (s, e) {
        (SessionState::Removed, _) => (SessionState::Removed, SessionAction::Nothing),
        (SessionState::Errored, SessionEvent::Closed { .. }) => (SessionState::Removed, SessionAction::RemovePlayer),
        (SessionState::Errored, _) => (SessionState::Errored, SessionAction::Nothing),
        (_, SessionEvent::Closed { normal: false }) => (SessionState::Removed, SessionAction::RemovePlayer),
        (SessionState::Closing, _) => (SessionState::Closing, SessionAction::Nothing),
        (_, SessionEvent::Closed { normal: true }) => (SessionState::Closing, SessionAction::LogClose),
        (SessionState::Connecting, SessionEvent::Opened) => (SessionState::Open, SessionAction::ArmTimer),
        (SessionState::Connecting, _) => (SessionState::Connecting, SessionAction::Nothing),
        (_, SessionEvent::MessageReceived) => (SessionState::Open, SessionAction::ArmTimer),
        (SessionState::Open, SessionEvent::TimerFired) => (SessionState::TimedOut, SessionAction::SendProbe),
        (SessionState::TimedOut, SessionEvent::ProbeSent) => (SessionState::Open, SessionAction::ArmTimer),
        (SessionState::TimedOut, SessionEvent::ProbeFailed) => (SessionState::Errored, SessionAction::CloseWithError),
        _ => (s, SessionAction::Nothing),
    }
}

/// Registers a newly scheduled timer as the connection's only pending one,
/// handing back the one it supersedes, which the caller cancels.
pub fn replace_timeout<T>(slot: &mut Option<T>, timeout: T) -> (r: Option<T>)
    ensures
        r == *old(slot),
        *final(slot) == Some(timeout),
{
    let previous = slot.take();
    *slot = Some(timeout);
    previous
}

/// Relies on `rand::thread_rng` and `Rng::gen_range`: a value drawn from
/// `0..high`, which must not be empty.
#[verifier::external_body]
fn random_below(high: u8) -> (r: u8)
    requires
        0 < high,
    ensures
        r < high,
{
    rand::thread_rng().gen_range(0, high)
}

/// Draws the kind of the next piece.
pub fn next_piece() -> (r: u8)
    ensures
        r < NUM_SHAPES,
{
    random_below(NUM_SHAPES)
}

} // verus!
