//! Complementation of Boolean functions held as lists of cubes.
//!
//! A cube is a conjunction of literals over `n` variables, one three-valued
//! entry per variable; a cube list is the disjunction of its cubes. The crate
//! computes a cube list for the complement of a function by recursive
//! Shannon expansion on a heuristically chosen splitting variable, and reads
//! and writes cube lists in a line-oriented text format.

pub mod algebra;
pub mod binate;
pub mod codec;
pub mod cofactor;
pub mod complement;
pub mod counting;
pub mod decimal;
pub mod error;
pub mod fixed;
pub mod logic;
pub mod text;

