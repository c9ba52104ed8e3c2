//! A pool that runs a segment in passes: fewer seats than a layer has
//! experts, each pass seating as many of the experts the segment names as
//! its share of the pool takes.

pub mod ahead;
pub mod laws;
pub mod opening;
pub mod passes;
pub mod report;
pub mod room;
pub mod said;
pub mod seat_laws;
pub mod segment;
pub mod sitting;
pub mod tier;
