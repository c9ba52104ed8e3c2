//! The device's own side: its clock, its memory, and the threads beside it.

pub mod buffer;
pub mod heater;
pub mod spinner;
