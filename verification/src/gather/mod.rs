//! A table too large for the device, read a row at a time.

pub mod laws;
pub mod plan;
pub mod plan_laws;
pub mod slab;
pub mod slab_laws;
