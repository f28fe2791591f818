use vstd::prelude::*;

verus! {

/// Errors surfaced by the protocol core. Every recoverable kind is converted
/// into an ordinary reply and flows through the normal completion path.
#[derive(Clone, Copy, Debug, PartialEq, Eq, Structural)]
pub enum AsError {
    /// The peer sent a structurally invalid unit.
    BadMessage,
    /// The backend connection failed while a unit was in flight.
    ConnClosed,
}

} // verus!
