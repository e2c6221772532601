//! Authoritative server-side simulation for a small multiplayer arena game:
//! players stand on a shrinking raft of tiles, predatory sharks erode the
//! raft, and players can dash-attack each other. All world coordinates and
//! durations are fixed-point integers in milli-units (one thousandth of a
//! world unit, one millisecond of time), so every rule of the simulation is
//! stated and proved exactly.

pub mod geom;
pub mod idmap;
pub mod idset;
pub mod laws;
pub mod protocol;
pub mod rng;
pub mod state;
pub mod tiles;
