//! A discrete-event simulation of units carrying out timed commands (walk,
//! wait, shoot) in a shared arena, with an authority that commits the world
//! one instant at a time and a client that previews its plans and repairs its
//! beliefs against the authority's outcomes.
//!
//! Time is counted in ticks of a tenth of a time unit, and positions in
//! thousandths of a distance unit.

pub mod geometry;
pub mod table;
pub mod model;
pub mod command;
pub mod server;
pub mod client;
pub mod scenario;
pub mod display;
