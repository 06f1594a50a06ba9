//! An SIR epidemic simulation over agents that wander a wraparound plane.
//!
//! Lengths are whole units of an integer lattice and probabilities are parts
//! per million, so that every rule of the model can be stated exactly.
pub mod chance;
pub mod person;
pub mod population;
pub mod virus;
pub mod world;
