//! A smart home model: rooms of devices, the devices' line protocols, and the
//! configuration of the simulators that stand in for real devices.
pub mod error;
pub mod home;
pub mod laws;
pub mod naming;
pub mod report;
pub mod room;
pub mod settings;
pub mod simulators;
pub mod smart_device;
pub mod text;
pub mod timing;

pub use error::DeviceResult;
