//! Reconstruction of multi-hop radio-repeater paths from one-byte prefix
//! observations.
//!
//! Geographic coordinates are carried as integer microdegrees (WGS-84 degrees
//! scaled by one million), elevations as integer millimeters, and link costs as
//! integer micro-units (the dimensionless penalty scaled by one million). All
//! decisions of the pipeline — graph construction, trellis decoding,
//! localization of unknown repeaters — are made on these integer values and are
//! verified; the trigonometric distance model that produces them is left to the
//! caller.

pub mod graph;
pub mod localization;
pub mod models;
pub mod numeric;
pub mod pathfinding;
pub mod physics;
pub mod spatial;
pub mod terrain;
pub mod viterbi;
