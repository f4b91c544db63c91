//! A fixed-capacity population of particles that walk at random inside a
//! square enclosure, and the count of the close pairs among them.
//!
//! Positions lie on an integer grid: one unit of length is `UNIT` grid steps,
//! so every distance test is exact.

pub mod particle;
pub mod driver;
pub mod scan;
pub mod system;
pub mod walk;
