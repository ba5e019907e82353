//! A particle simulation of bread dough: proteins that cross-link, water,
//! salt, and yeast that turns sugar into carbon dioxide and ethanol.
//!
//! All quantities are fixed-point integers: lengths in micro-units, time in
//! microseconds, probabilities in parts per million.
//!
//! - `fixed`: fixed-point arithmetic (truncating division, square roots, speed limits).
//! - `molecule`: particle categories, particles and bonds.
//! - `grid`: the spatial index that owns the particles and answers neighbourhood queries.
//! - `physics`: motion, walls, drag, and the velocity changes of forces and bonds.
//! - `chemistry`: bond formation and yeast metabolism rules.
//! - `sim`: the simulation state, its commands and its per-step pipeline.

pub mod fixed;
pub mod molecule;
pub mod grid;
mod random;
pub mod sim;
pub mod physics;
pub mod chemistry;

pub use fixed::Vec3;
pub use grid::SpatialGrid3D;
pub use molecule::{Bond, Molecule, MoleculeType};
pub use sim::SimulationState;
