//! The shared pool of expert seats and everything planned around it.

pub mod ahead_laws;
pub mod cutting;
pub mod decide_laws;
pub mod deciding;
pub mod fill_laws;
pub mod filling;
pub mod fire;
pub mod found_laws;
pub mod landing;
pub mod laws;
pub mod memory_laws;
pub mod opening;
pub mod plan;
pub mod plan_laws;
pub mod pool;
pub mod predict;
pub mod predict_laws;
pub mod record_laws;
pub mod ring;
pub mod rows;
pub mod said;
pub mod seat_laws;
pub mod seats;
pub mod segment;
pub mod shape;
pub mod sizing;
pub mod source;
pub mod tally;
pub mod tier;
pub mod tier_laws;
pub mod trace;
pub mod word_laws;
pub mod words;
