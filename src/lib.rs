//! Authoritative game state for a multiplayer falling-block server: the
//! shape table, collision rules, input handling, gravity and settlement,
//! and the per-connection liveness state machine.
pub mod board;
pub mod clock;
pub mod collision;
pub mod game;
pub mod piece;
pub mod registry;
pub mod session;
