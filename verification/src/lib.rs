//! A population of cells that attract and repel each other, merge where
//! they meet and divide once they have grown.
//!
//! Sizes are whole pixels. Coordinates, speeds and accelerations are
//! fixed-point numbers with sixteen fractional bits, so that every step of
//! a tick is exact integer arithmetic.

pub mod cell;
pub mod config;
pub mod divide;
pub mod fixed;
pub mod force;
pub mod gol;
pub mod laws;
pub mod names;
pub mod place;
pub mod spawn;
pub mod world;
