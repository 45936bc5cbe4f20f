//! Core of a satellite-constellation simulator: closed-form Kepler
//! propagation of orbital elements to Cartesian positions, and a
//! capacity-constrained, distance-bounded link-topology manager that
//! keeps each satellite connected to a bounded number of nearby peers.
//!
//! All quantities are fixed-point integers: angles in micro-radians,
//! dimensionless ratios (eccentricity, sines, cosines) scaled by
//! `fixmath::SCALE`, positions in metres.

pub mod fixmath;
pub mod kepler;
pub mod orbit;
pub mod epoch;
pub mod elements;
pub mod manager;
pub mod communication;
pub mod config;
pub mod io;
pub mod widgets;
