//! The residency machinery of a Metal inference engine: how routed experts
//! and gathered rows are seated in less device memory than they need.

pub mod bytes;
pub mod cuts;
pub mod device;
pub mod doubles;
pub mod experts;
pub mod fault;
pub mod gather;
pub mod ids;
pub mod line;
pub mod mapping;
pub mod messages;
pub mod passing;
pub mod text;
pub mod trace;
pub mod weights;
pub mod word_laws;
