//! Verified core of a lane-driving simulation: exact 2-D segment and polygon
//! intersection, car kinematics with a one-way damage flag, ray-based sensing,
//! a perceptron-style feed-forward controller with random initialisation and
//! mutation, lane layout, cohort selection, and a JSON codec for persisting a
//! controller.
//!
//! Every scalar quantity is a fixed-point value: an `i64` holding the quantity
//! multiplied by [`fixed::SCALE`]. Headings are unit vectors (sine/cosine
//! pairs) in the same representation, so every formula is exact integer
//! arithmetic.

pub mod car;
pub mod codec;
pub mod controls;
pub mod digits;
pub mod fixed;
pub mod network;
pub mod population;
pub mod road;
mod rng;
pub mod sensor;
pub mod utils;
