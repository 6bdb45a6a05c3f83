//! The simulated devices' logic: the thermometer simulator's configuration
//! and the socket simulator's command handling.
pub mod socket;
pub mod thermometer;

pub use socket::{ClientBuffers, CommandReply, SimulatorSocketState};
pub use thermometer::ThermometerSimulatorConfig;
