//! The devices of a smart home that the library models.
pub mod socket;

pub use socket::{NetworkPowerSocket, SocketCommand, SocketState};
